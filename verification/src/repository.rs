//! The book repository over an in-memory model of the three tables:
//! book rows, tag rows with structural (kind, name) identity, and the
//! join rows tying them together.
//!
//! Reads run the same pipeline as a SQL backend would: a selection
//! mode picks an ordered page of books, the rows of each book are laid
//! out contiguously as the query's ORDER BY guarantees, and the row
//! aggregator folds them back into entities.

use vstd::prelude::*;

use crate::entity::{
    is_tag_kind, lemma_book_kind_roundtrip, lemma_tag_kind_valid, Book, BookKind, BookSortBy,
    BookGroupByTag, BookTag, BookView, Sort, clone_tag, eq_tag, tags_view,
};
use crate::error::RepositoryError;
use crate::row::{
    book_of_block, is_block, lemma_aggregate_append_block, lemma_rows_wf_append_block, into_books,
    rows_view, rows_wf, rows_decode, row_error, spec_aggregate, books_view, FlatRow, FlatRowView,
    TagRow, TagRowView,
};

verus! {

/// One row of the books table.
#[derive(Debug)]
pub struct StoredBook {
    pub id: u64,
    pub title: String,
    pub page: usize,
    pub language: String,
    pub kind: BookKind,
    pub created_at: i64,
}

pub struct StoredBookView {
    pub id: u64,
    pub title: Seq<char>,
    pub page: usize,
    pub language: Seq<char>,
    pub kind: BookKind,
    pub created_at: i64,
}

impl View for StoredBook {
    type V = StoredBookView;

    open spec fn view(&self) -> StoredBookView {
        StoredBookView {
            id: self.id,
            title: self.title@,
            page: self.page,
            language: self.language@,
            kind: self.kind,
            created_at: self.created_at,
        }
    }
}

/// One row of the tag table: a surrogate id and the structural tag.
#[derive(Debug)]
pub struct StoredTag {
    pub id: u64,
    pub tag: BookTag,
}

pub struct StoredTagView {
    pub id: u64,
    pub kind: Seq<char>,
    pub name: Seq<char>,
}

impl View for StoredTag {
    type V = StoredTagView;

    open spec fn view(&self) -> StoredTagView {
        StoredTagView { id: self.id, kind: self.tag@.0, name: self.tag@.1 }
    }
}

/// One row of the join table.
#[derive(Debug, Clone, Copy, PartialEq, Eq, Structural)]
pub struct JoinRow {
    pub book_id: u64,
    pub tag_id: u64,
}

/// The model of the whole store.
pub struct CatalogView {
    pub books: Seq<StoredBookView>,
    pub tags: Seq<StoredTagView>,
    pub refs: Seq<JoinRow>,
    pub next_tag_id: int,
}

/// Whether some stored tag carries this surrogate id.
pub open spec fn has_tag_id(ts: Seq<StoredTagView>, tid: u64) -> bool {
    exists|j: int| 0 <= j < ts.len() && (#[trigger] ts[j]).id == tid
}

/// Whether some stored book carries this id.
pub open spec fn has_book_id(bs: Seq<StoredBookView>, id: u64) -> bool {
    exists|j: int| 0 <= j < bs.len() && (#[trigger] bs[j]).id == id
}

/// Membership survives appending a row.
proof fn lemma_has_tag_id_push(ts: Seq<StoredTagView>, x: StoredTagView, tid: u64)
    requires
        has_tag_id(ts, tid),
    ensures
        has_tag_id(ts.push(x), tid),
{
    let j = choose|j: int| 0 <= j < ts.len() && (#[trigger] ts[j]).id == tid;
    assert(ts.push(x)[j] == ts[j]);
}

/// Membership survives appending a row.
proof fn lemma_has_book_id_push(bs: Seq<StoredBookView>, x: StoredBookView, id: u64)
    requires
        has_book_id(bs, id),
    ensures
        has_book_id(bs.push(x), id),
{
    let j = choose|j: int| 0 <= j < bs.len() && (#[trigger] bs[j]).id == id;
    assert(bs.push(x)[j] == bs[j]);
}

/// Well-formed storage: unique book ids; unique tag ids and unique
/// (kind, name) pairs, every tag kind one of the closed set and every
/// tag id below the allocator's next; join rows that reference
/// existing books and tags.
pub open spec fn catalog_wf(cat: CatalogView) -> bool {
    &&& forall|i: int, j: int|
        0 <= i < j < cat.books.len() ==> (#[trigger] cat.books[i]).id != (
        #[trigger] cat.books[j]).id
    &&& forall|i: int, j: int|
        0 <= i < j < cat.tags.len() ==> (#[trigger] cat.tags[i]).id != (#[trigger] cat.tags[j]).id
    &&& forall|i: int, j: int|
        0 <= i < j < cat.tags.len() ==> ((#[trigger] cat.tags[i]).kind, cat.tags[i].name) != ((
        #[trigger] cat.tags[j]).kind, cat.tags[j].name)
    &&& forall|i: int| 0 <= i < cat.tags.len() ==> is_tag_kind((#[trigger] cat.tags[i]).kind)
    &&& forall|i: int| 0 <= i < cat.tags.len() ==> (#[trigger] cat.tags[i]).id < cat.next_tag_id
    &&& forall|i: int| 0 <= i < cat.refs.len() ==> has_tag_id(cat.tags, (#[trigger] cat.refs[i]).tag_id)
    &&& forall|i: int|
        0 <= i < cat.refs.len() ==> has_book_id(cat.books, (#[trigger] cat.refs[i]).book_id)
    &&& 1 <= cat.next_tag_id
}

/// The first stored book with this id, if any.
pub open spec fn book_with_id(bs: Seq<StoredBookView>, id: u64) -> Option<StoredBookView>
    decreases bs.len(),
{
    if bs.len() == 0 {
        None
    } else if bs[0].id == id {
        Some(bs[0])
    } else {
        book_with_id(bs.skip(1), id)
    }
}

/// The first stored tag with this surrogate id, if any.
pub open spec fn tag_with_id(ts: Seq<StoredTagView>, tid: u64) -> Option<StoredTagView>
    decreases ts.len(),
{
    if ts.len() == 0 {
        None
    } else if ts[0].id == tid {
        Some(ts[0])
    } else {
        tag_with_id(ts.skip(1), tid)
    }
}

/// The join rows of one book, in stored order.
pub open spec fn refs_of(refs: Seq<JoinRow>, id: u64) -> Seq<JoinRow>
    decreases refs.len(),
{
    if refs.len() == 0 {
        Seq::empty()
    } else {
        let prev = refs_of(refs.drop_last(), id);
        if refs.last().book_id == id {
            prev.push(refs.last())
        } else {
            prev
        }
    }
}

/// The tag list a book carries: its join rows in stored order, each
/// resolved to the referenced tag's (kind, name).
pub open spec fn book_tags(cat: CatalogView, id: u64) -> Seq<(Seq<char>, Seq<char>)> {
    refs_of(cat.refs, id).map_values(
        |r: JoinRow|
            (
                tag_with_id(cat.tags, r.tag_id)->0.kind,
                tag_with_id(cat.tags, r.tag_id)->0.name,
            ),
    )
}

/// The entity a stored book denotes under a catalog.
pub open spec fn book_of(cat: CatalogView, b: StoredBookView) -> BookView {
    BookView {
        id: b.id,
        title: b.title,
        page: b.page,
        language: b.language,
        kind: b.kind,
        tags: book_tags(cat, b.id),
        created_at: b.created_at,
    }
}

/// The flat rows the join emits for one book: one row per join row,
/// or a single null-tag row for an untagged book.
pub open spec fn rows_for_book(cat: CatalogView, b: StoredBookView) -> Seq<FlatRowView> {
    let rs = refs_of(cat.refs, b.id);
    if rs.len() == 0 {
        seq![scalar_row(b, None)]
    } else {
        rs.map_values(
            |r: JoinRow|
                scalar_row(
                    b,
                    Some(
                        TagRowView {
                            id: r.tag_id,
                            kind: tag_with_id(cat.tags, r.tag_id)->0.kind,
                            name: tag_with_id(cat.tags, r.tag_id)->0.name,
                        },
                    ),
                ),
        )
    }
}

/// One flat row: a book's scalar columns beside at most one tag's.
pub open spec fn scalar_row(b: StoredBookView, tag: Option<TagRowView>) -> FlatRowView {
    FlatRowView {
        book_id: b.id,
        title: b.title,
        page: b.page,
        language: b.language,
        kind: b.kind.spec_as_str(),
        created_at: b.created_at,
        tag: tag,
    }
}

/// The row stream for an ordered page of books: each book's block in
/// turn.
pub open spec fn rows_for_books(cat: CatalogView, bs: Seq<StoredBookView>) -> Seq<FlatRowView>
    decreases bs.len(),
{
    if bs.len() == 0 {
        Seq::empty()
    } else {
        rows_for_books(cat, bs.drop_last()) + rows_for_book(cat, bs.last())
    }
}

/// Pairwise distinct book ids.
pub open spec fn ids_distinct(bs: Seq<StoredBookView>) -> bool {
    forall|i: int, j: int|
        0 <= i < j < bs.len() ==> (#[trigger] bs[i]).id != (#[trigger] bs[j]).id
}

/// An existing id is found.
proof fn lemma_tag_with_id_found(ts: Seq<StoredTagView>, tid: u64)
    requires
        has_tag_id(ts, tid),
    ensures
        tag_with_id(ts, tid) is Some,
        tag_with_id(ts, tid)->0.id == tid,
        exists|j: int| 0 <= j < ts.len() && ts[j] == tag_with_id(ts, tid)->0,
    decreases ts.len(),
{
    if ts.len() > 0 && ts[0].id != tid {
        assert forall|j: int| 0 <= j < ts.len() && (#[trigger] ts[j]).id == tid implies 1 <= j by {}
        let j = choose|j: int| 0 <= j < ts.len() && (#[trigger] ts[j]).id == tid;
        assert(ts.skip(1)[j - 1] == ts[j]);
        lemma_tag_with_id_found(ts.skip(1), tid);
        let j2 = choose|j: int|
            0 <= j < ts.skip(1).len() && ts.skip(1)[j] == tag_with_id(ts.skip(1), tid)->0;
        assert(ts[j2 + 1] == ts.skip(1)[j2]);
    }
}

/// One book's rows form a block that folds back to that book.
proof fn lemma_rows_for_book(cat: CatalogView, b: StoredBookView)
    requires
        catalog_wf(cat),
    ensures
        is_block(rows_for_book(cat, b)),
        rows_for_book(cat, b)[0].book_id == b.id,
        book_of_block(rows_for_book(cat, b)) == book_of(cat, b),
        forall|i: int|
            0 <= i < rows_for_book(cat, b).len() ==> #[trigger] row_error(
                rows_for_book(cat, b)[i],
            ) is None,
{
    let rows = rows_for_book(cat, b);
    let rs = refs_of(cat.refs, b.id);
    lemma_book_kind_roundtrip(b.kind);
    lemma_refs_of_sub(cat.refs, b.id);
    if rs.len() == 0 {
        assert(rows == seq![scalar_row(b, None)]);
        assert(rows[0] == scalar_row(b, None));
        assert(book_of_block(rows).tags =~= book_tags(cat, b.id));
        assert(book_of_block(rows) == book_of(cat, b));
    } else {
        assert(forall|i: int| 0 <= i < rows.len() ==> (#[trigger] rows[i]).book_id == b.id);
        assert(forall|i: int| 0 <= i < rows.len() ==> (#[trigger] rows[i]).tag is Some);
        assert(rows[0].tag is Some);
        assert(book_of_block(rows).tags =~= book_tags(cat, b.id));
        assert(book_of_block(rows) == book_of(cat, b));
        assert forall|i: int| 0 <= i < rows.len() implies #[trigger] row_error(rows[i]) is None by {
            let r = rs[i];
            assert(rows[i] == scalar_row(
                b,
                Some(
                    TagRowView {
                        id: r.tag_id,
                        kind: tag_with_id(cat.tags, r.tag_id)->0.kind,
                        name: tag_with_id(cat.tags, r.tag_id)->0.name,
                    },
                ),
            ));
            lemma_tag_with_id_found(cat.tags, r.tag_id);
        }
    }
}

/// Every member of `refs_of` is a member of the whole.
proof fn lemma_refs_of_sub(refs: Seq<JoinRow>, id: u64)
    ensures
        forall|i: int|
            0 <= i < refs_of(refs, id).len() ==> (#[trigger] refs_of(refs, id)[i]).book_id == id
                && refs.contains(refs_of(refs, id)[i]),
    decreases refs.len(),
{
    if refs.len() > 0 {
        lemma_refs_of_sub(refs.drop_last(), id);
        assert forall|i: int|
            0 <= i < refs_of(refs, id).len() implies (#[trigger] refs_of(refs, id)[i]).book_id
            == id && refs.contains(refs_of(refs, id)[i]) by {
            let sub = refs_of(refs.drop_last(), id);
            if i < sub.len() {
                assert(refs_of(refs, id)[i] == sub[i]);
                let j = choose|j: int|
                    0 <= j < refs.drop_last().len() && refs.drop_last()[j] == sub[i];
                assert(refs[j] == sub[i]);
            } else {
                assert(refs_of(refs, id)[i] == refs.last());
                assert(refs[refs.len() - 1] == refs.last());
            }
        }
    }
}

/// The grouping contract, established by construction: the row stream
/// emitted for a page of books with distinct ids keeps each book's
/// rows contiguous and well formed, decodes throughout, and the fold
/// gives back exactly those books, in page order.
pub proof fn lemma_rows_for_books(cat: CatalogView, bs: Seq<StoredBookView>)
    requires
        catalog_wf(cat),
        ids_distinct(bs),
    ensures
        rows_wf(rows_for_books(cat, bs)),
        rows_decode(rows_for_books(cat, bs)),
        spec_aggregate(rows_for_books(cat, bs)) == bs.map_values(|b: StoredBookView| book_of(cat, b)),
        bs.len() > 0 ==> rows_for_books(cat, bs).len() > 0 && rows_for_books(cat, bs).last().book_id
            == bs.last().id,
    decreases bs.len(),
{
    let rows = rows_for_books(cat, bs);
    if bs.len() == 0 {
        assert(bs.map_values(|b: StoredBookView| book_of(cat, b)) =~= Seq::<BookView>::empty());
    } else {
        let bs0 = bs.drop_last();
        let b = bs.last();
        assert(ids_distinct(bs0)) by {
            assert(forall|i: int| 0 <= i < bs0.len() ==> bs0[i] == bs[i]);
        }
        lemma_rows_for_books(cat, bs0);
        lemma_rows_for_book(cat, b);
        let prev = rows_for_books(cat, bs0);
        let block = rows_for_book(cat, b);
        if bs0.len() > 0 {
            assert(bs0.last() == bs[bs.len() - 2]);
            assert(prev.last().book_id != block[0].book_id);
        }
        lemma_rows_wf_append_block(prev, block);
        lemma_aggregate_append_block(prev, block);
        assert(spec_aggregate(rows) == spec_aggregate(prev).push(book_of_block(block)));
        assert(spec_aggregate(rows) =~= bs.map_values(|bb: StoredBookView| book_of(cat, bb))) by {
            assert(bs0.map_values(|bb: StoredBookView| book_of(cat, bb)) =~= bs.map_values(
                |bb: StoredBookView| book_of(cat, bb),
            ).drop_last());
        }
        assert(rows_decode(rows)) by {
            assert(forall|i: int|
                0 <= i < rows.len() ==> rows[i] == if i < prev.len() {
                    prev[i]
                } else {
                    block[i - prev.len()]
                });
        }
        assert(rows.last() == block.last());
        assert(block.last().book_id == b.id);
    }
}

/// The books selected by an ordered id list: each id at its first
/// occurrence, in list order; ids absent from storage select nothing.
pub open spec fn selected_books(cat: CatalogView, ids: Seq<u64>) -> Seq<StoredBookView>
    decreases ids.len(),
{
    if ids.len() == 0 {
        Seq::empty()
    } else {
        let prev = selected_books(cat, ids.drop_last());
        let id = ids.last();
        if ids.drop_last().contains(id) {
            prev
        } else {
            match book_with_id(cat.books, id) {
                Some(b) => prev.push(b),
                None => prev,
            }
        }
    }
}

/// A found book carries the id it was found by, and is a member.
pub proof fn lemma_book_with_id_props(bs: Seq<StoredBookView>, id: u64)
    requires
        book_with_id(bs, id) is Some,
    ensures
        book_with_id(bs, id)->0.id == id,
        bs.contains(book_with_id(bs, id)->0),
    decreases bs.len(),
{
    if bs.len() > 0 && bs[0].id != id {
        lemma_book_with_id_props(bs.skip(1), id);
        let b = book_with_id(bs.skip(1), id)->0;
        let j = choose|j: int| 0 <= j < bs.skip(1).len() && bs.skip(1)[j] == b;
        assert(bs[j + 1] == b);
    }
}

/// The selection holds distinct ids, each appearing in the id list and
/// resolving to its stored book.
pub proof fn lemma_selected_books(cat: CatalogView, ids: Seq<u64>)
    ensures
        ids_distinct(selected_books(cat, ids)),
        forall|k: int|
            0 <= k < selected_books(cat, ids).len() ==> ids.contains(
                (#[trigger] selected_books(cat, ids)[k]).id,
            ) && book_with_id(cat.books, selected_books(cat, ids)[k].id) == Some(
                selected_books(cat, ids)[k],
            ),
    decreases ids.len(),
{
    if ids.len() > 0 {
        lemma_selected_books(cat, ids.drop_last());
        let prev = selected_books(cat, ids.drop_last());
        let id = ids.last();
        let sel = selected_books(cat, ids);
        assert forall|k: int|
            0 <= k < prev.len() implies ids.contains((#[trigger] prev[k]).id) by {
            assert(ids.drop_last().contains(prev[k].id));
            let j = choose|j: int| 0 <= j < ids.drop_last().len() && ids.drop_last()[j] == prev[k].id;
            assert(ids[j] == prev[k].id);
        }
        if !ids.drop_last().contains(id) && book_with_id(cat.books, id) is Some {
            let b = book_with_id(cat.books, id)->0;
            lemma_book_with_id_props(cat.books, id);
            assert(b.id == id);
            assert(sel == prev.push(b));
            assert(forall|k: int| 0 <= k < prev.len() ==> (#[trigger] prev[k]).id != id);
            assert(ids[ids.len() - 1] == id);
            assert(ids.contains(id));
        }
    }
}

/// Whether a book passes the optional kind filter.
pub open spec fn kind_matches(b: StoredBookView, kind: Option<BookKind>) -> bool {
    match kind {
        None => true,
        Some(k) => b.kind == k,
    }
}

/// The stored books passing the kind filter, in stored order.
pub open spec fn filtered_books(bs: Seq<StoredBookView>, kind: Option<BookKind>) -> Seq<
    StoredBookView,
>
    decreases bs.len(),
{
    if bs.len() == 0 {
        Seq::empty()
    } else {
        let prev = filtered_books(bs.drop_last(), kind);
        if kind_matches(bs.last(), kind) {
            prev.push(bs.last())
        } else {
            prev
        }
    }
}

/// Insertion into an id-ordered sequence, ascending or descending.
pub open spec fn insert_by_id(s: Seq<StoredBookView>, b: StoredBookView, asc: bool) -> Seq<
    StoredBookView,
>
    decreases s.len(),
{
    if s.len() == 0 {
        seq![b]
    } else if (asc && b.id >= s.last().id) || (!asc && b.id <= s.last().id) {
        s.push(b)
    } else {
        insert_by_id(s.drop_last(), b, asc).push(s.last())
    }
}

/// Insertion sort by book id.
pub open spec fn sort_by_id(s: Seq<StoredBookView>, asc: bool) -> Seq<StoredBookView>
    decreases s.len(),
{
    if s.len() == 0 {
        s
    } else {
        insert_by_id(sort_by_id(s.drop_last(), asc), s.last(), asc)
    }
}

/// Ordered by id in the given direction.
pub open spec fn sorted_by_id(s: Seq<StoredBookView>, asc: bool) -> bool {
    forall|i: int, j: int|
        0 <= i < j < s.len() ==> if asc {
            (#[trigger] s[i]).id <= (#[trigger] s[j]).id
        } else {
            (#[trigger] s[i]).id >= (#[trigger] s[j]).id
        }
}

/// The books a listing walks, ordered: the kind filter applied to the
/// stored books, then the sort. The backend-native arbitrary order of
/// `Random` is realized here as the stored order.
pub open spec fn ordered_books(cat: CatalogView, kind: Option<BookKind>, sort_by: BookSortBy) -> Seq<
    StoredBookView,
> {
    let f = filtered_books(cat.books, kind);
    match sort_by {
        BookSortBy::Id(Sort::Asc) => sort_by_id(f, true),
        BookSortBy::Id(Sort::Desc) => sort_by_id(f, false),
        BookSortBy::Random => f,
    }
}

/// One page of an ordered listing: `per_page` books starting at
/// `per_page * (page - 1)`, clipped to the end.
pub open spec fn page_window(s: Seq<StoredBookView>, per_page: usize, page: usize) -> Seq<
    StoredBookView,
>
    recommends
        page >= 1,
{
    let off = (per_page as int) * (page as int - 1);
    let lo = if off <= s.len() {
        off
    } else {
        s.len() as int
    };
    let hi = if off + per_page <= s.len() {
        off + per_page
    } else {
        s.len() as int
    };
    s.subrange(lo, hi)
}

/// The filter keeps distinct ids distinct and draws its members from
/// the input.
proof fn lemma_filtered_books(bs: Seq<StoredBookView>, kind: Option<BookKind>)
    requires
        ids_distinct(bs),
    ensures
        ids_distinct(filtered_books(bs, kind)),
        forall|k: int|
            0 <= k < filtered_books(bs, kind).len() ==> bs.contains(
                #[trigger] filtered_books(bs, kind)[k],
            ) && kind_matches(filtered_books(bs, kind)[k], kind),
    decreases bs.len(),
{
    if bs.len() > 0 {
        let bs0 = bs.drop_last();
        assert(ids_distinct(bs0)) by {
            assert(forall|i: int| 0 <= i < bs0.len() ==> bs0[i] == bs[i]);
        }
        lemma_filtered_books(bs0, kind);
        let prev = filtered_books(bs0, kind);
        assert forall|k: int| 0 <= k < prev.len() implies bs.contains(#[trigger] prev[k]) && (
        #[trigger] prev[k]).id != bs.last().id by {
            let j = choose|j: int| 0 <= j < bs0.len() && bs0[j] == prev[k];
            assert(bs[j] == prev[k]);
            assert(bs[bs.len() - 1] == bs.last());
        }
        if kind_matches(bs.last(), kind) {
            assert(bs.contains(bs.last())) by {
                assert(bs[bs.len() - 1] == bs.last());
            }
        }
    }
}

/// Insertion keeps the order, the members plus the new one, and
/// distinct ids distinct.
#[verifier::rlimit(100)]
proof fn lemma_insert_by_id(s: Seq<StoredBookView>, b: StoredBookView, asc: bool)
    requires
        ids_distinct(s),
        sorted_by_id(s, asc),
        forall|k: int| 0 <= k < s.len() ==> (#[trigger] s[k]).id != b.id,
    ensures
        ids_distinct(insert_by_id(s, b, asc)),
        sorted_by_id(insert_by_id(s, b, asc), asc),
        insert_by_id(s, b, asc).len() == s.len() + 1,
        forall|k: int|
            0 <= k < insert_by_id(s, b, asc).len() ==> s.contains(
                #[trigger] insert_by_id(s, b, asc)[k],
            ) || insert_by_id(s, b, asc)[k] == b,
        insert_by_id(s, b, asc).contains(b),
        forall|k: int| 0 <= k < s.len() ==> insert_by_id(s, b, asc).contains(#[trigger] s[k]),
    decreases s.len(),
{
    let r = insert_by_id(s, b, asc);
    if s.len() == 0 {
        assert(r == seq![b]);
        assert(r[0] == b);
    } else if (asc && b.id >= s.last().id) || (!asc && b.id <= s.last().id) {
        assert(r == s.push(b));
        assert(forall|i: int| 0 <= i < s.len() ==> r[i] == s[i]);
        assert(r[r.len() - 1] == b);
        assert(s[s.len() - 1] == s.last());
        assert forall|k: int| 0 <= k < s.len() implies r.contains(#[trigger] s[k]) by {
            assert(r[k] == s[k]);
        }
        assert forall|k: int| 0 <= k < r.len() implies s.contains(#[trigger] r[k]) || r[k]
            == b by {
            if k < s.len() {
                assert(s[k] == r[k]);
            }
        }
    } else {
        let s0 = s.drop_last();
        assert(ids_distinct(s0) && sorted_by_id(s0, asc)) by {
            assert(forall|i: int| 0 <= i < s0.len() ==> s0[i] == s[i]);
        }
        assert(forall|k: int| 0 <= k < s0.len() ==> (#[trigger] s0[k]).id != b.id) by {
            assert(forall|i: int| 0 <= i < s0.len() ==> s0[i] == s[i]);
        }
        lemma_insert_by_id(s0, b, asc);
        let inner = insert_by_id(s0, b, asc);
        assert(r == inner.push(s.last()));
        assert(s[s.len() - 1] == s.last());
        assert(forall|i: int| 0 <= i < inner.len() ==> r[i] == inner[i]);
        assert(r[r.len() - 1] == s.last());
        // Every inner element sits below the peeled last element.
        assert forall|i: int| 0 <= i < inner.len() implies ((#[trigger] inner[i]).id != s.last().id
            && (if asc {
            inner[i].id <= s.last().id
        } else {
            inner[i].id >= s.last().id
        })) by {
            if s0.contains(inner[i]) {
                let j = choose|j: int| 0 <= j < s0.len() && s0[j] == inner[i];
                assert(s[j] == inner[i]);
            } else {
                assert(inner[i] == b);
            }
        }
        assert forall|k: int| 0 <= k < r.len() implies s.contains(#[trigger] r[k]) || r[k]
            == b by {
            if k < inner.len() {
                if s0.contains(inner[k]) {
                    let j = choose|j: int| 0 <= j < s0.len() && s0[j] == inner[k];
                    assert(s[j] == r[k]);
                }
            } else {
                assert(r[k] == s.last());
            }
        }
        assert(r.contains(b)) by {
            let j = choose|j: int| 0 <= j < inner.len() && inner[j] == b;
            assert(r[j] == b);
        }
        assert forall|k: int| 0 <= k < s.len() implies r.contains(#[trigger] s[k]) by {
            if k < s0.len() {
                assert(inner.contains(s0[k]));
                let j = choose|j: int| 0 <= j < inner.len() && inner[j] == s0[k];
                assert(r[j] == s[k]);
            } else {
                assert(r[r.len() - 1] == s[k]);
            }
        }
    }
}

/// The sort orders the books, keeps exactly the members, and keeps
/// distinct ids distinct.
#[verifier::rlimit(100)]
pub proof fn lemma_sort_by_id(s: Seq<StoredBookView>, asc: bool)
    requires
        ids_distinct(s),
    ensures
        ids_distinct(sort_by_id(s, asc)),
        sorted_by_id(sort_by_id(s, asc), asc),
        sort_by_id(s, asc).len() == s.len(),
        forall|k: int|
            0 <= k < sort_by_id(s, asc).len() ==> s.contains(#[trigger] sort_by_id(s, asc)[k]),
        forall|k: int| 0 <= k < s.len() ==> sort_by_id(s, asc).contains(#[trigger] s[k]),
    decreases s.len(),
{
    if s.len() > 0 {
        let s0 = s.drop_last();
        assert(ids_distinct(s0)) by {
            assert(forall|i: int| 0 <= i < s0.len() ==> s0[i] == s[i]);
        }
        lemma_sort_by_id(s0, asc);
        let inner = sort_by_id(s0, asc);
        let b = s.last();
        assert(s[s.len() - 1] == b);
        assert(forall|i: int| 0 <= i < s0.len() ==> s0[i] == s[i]);
        assert forall|k: int| 0 <= k < inner.len() implies (#[trigger] inner[k]).id != b.id by {
            assert(s0.contains(inner[k]));
            let j = choose|j: int| 0 <= j < s0.len() && s0[j] == inner[k];
            assert(s[j] == inner[k]);
        }
        lemma_insert_by_id(inner, b, asc);
        let r = sort_by_id(s, asc);
        assert(r == insert_by_id(inner, b, asc));
        assert forall|k: int| 0 <= k < r.len() implies s.contains(#[trigger] r[k]) by {
            if inner.contains(r[k]) {
                let j0 = choose|j0: int| 0 <= j0 < inner.len() && inner[j0] == r[k];
                assert(s0.contains(inner[j0]));
                let j = choose|j: int| 0 <= j < s0.len() && s0[j] == r[k];
                assert(s[j] == r[k]);
            } else {
                assert(r[k] == b);
            }
        }
        assert forall|k: int| 0 <= k < s.len() implies r.contains(#[trigger] s[k]) by {
            if k < s0.len() {
                assert(inner.contains(s0[k]));
                let j = choose|j: int| 0 <= j < inner.len() && inner[j] == s0[k];
                assert(r.contains(inner[j]));
            } else {
                assert(r.contains(b));
            }
        }
    }
}

/// A copy of a stored book row, equal at the view.
fn clone_stored(b: &StoredBook) -> (r: StoredBook)
    ensures
        r@ == b@,
{
    StoredBook {
        id: b.id,
        title: b.title.clone(),
        page: b.page,
        language: b.language.clone(),
        kind: b.kind,
        created_at: b.created_at,
    }
}

/// Insert one book into an id-ordered vector, keeping the order.
fn insert_sorted(v: &mut Vec<StoredBook>, b: StoredBook, asc: bool)
    ensures
        final(v)@.map_values(|x: StoredBook| x@) == insert_by_id(
            old(v)@.map_values(|x: StoredBook| x@),
            b@,
            asc,
        ),
{
    let ghost s = v@.map_values(|x: StoredBook| x@);
    let mut j: usize = v.len();
    proof {
        assert(s.take(s.len() as int) =~= s);
        assert(s.skip(s.len() as int) =~= Seq::<StoredBookView>::empty());
        assert(insert_by_id(s, b@, asc) =~= insert_by_id(s.take(j as int), b@, asc) + s.skip(
            j as int,
        ));
    }
    while j > 0 && shifts_past(v[j - 1].id, b.id, asc)
        invariant
            v@.map_values(|x: StoredBook| x@) == s,
            0 <= j <= s.len(),
            insert_by_id(s, b@, asc) == insert_by_id(s.take(j as int), b@, asc) + s.skip(j as int),
        decreases j,
    {
        proof {
            let pre = s.take(j as int);
            assert(pre.last() == s[j - 1]);
            assert(s[j - 1] == v@[j - 1]@);
            assert(pre.drop_last() =~= s.take(j - 1));
            assert(insert_by_id(pre, b@, asc) == insert_by_id(s.take(j - 1), b@, asc).push(
                s[j - 1],
            ));
            assert(insert_by_id(s.take(j - 1), b@, asc).push(s[j - 1]) + s.skip(j as int)
                =~= insert_by_id(s.take(j - 1), b@, asc) + s.skip(j - 1));
        }
        j = j - 1;
    }
    proof {
        let pre = s.take(j as int);
        if j > 0 {
            assert(pre.last() == s[j - 1]);
            assert(s[j - 1] == v@[j - 1]@);
        }
        assert(insert_by_id(pre, b@, asc) =~= pre.push(b@));
    }
    v.insert(j, b);
    proof {
        assert(v@.map_values(|x: StoredBook| x@) =~= s.take(j as int).push(b@) + s.skip(j as int));
    }
}

/// Whether insertion must move past this element.
fn shifts_past(prev_id: u64, new_id: u64, asc: bool) -> (r: bool)
    ensures
        r == if asc {
            prev_id > new_id
        } else {
            prev_id < new_id
        },
{
    if asc {
        prev_id > new_id
    } else {
        prev_id < new_id
    }
}

/// Insertion sort of book rows by id.
fn sort_books(v: Vec<StoredBook>, asc: bool) -> (r: Vec<StoredBook>)
    ensures
        r@.map_values(|x: StoredBook| x@) == sort_by_id(v@.map_values(|x: StoredBook| x@), asc),
{
    let ghost s = v@.map_values(|x: StoredBook| x@);
    let mut out: Vec<StoredBook> = Vec::new();
    let mut i: usize = 0;
    proof {
        assert(out@.map_values(|x: StoredBook| x@) =~= sort_by_id(s.take(0), asc));
    }
    while i < v.len()
        invariant
            s == v@.map_values(|x: StoredBook| x@),
            0 <= i <= s.len(),
            out@.map_values(|x: StoredBook| x@) == sort_by_id(s.take(i as int), asc),
        decreases s.len() - i,
    {
        proof {
            assert(s.take(i + 1).drop_last() =~= s.take(i as int));
            assert(s.take(i + 1).last() == s[i as int]);
            assert(s[i as int] == v@[i as int]@);
        }
        insert_sorted(&mut out, clone_stored(&v[i]), asc);
        i = i + 1;
    }
    proof {
        assert(s.take(s.len() as int) =~= s);
    }
    out
}

/// The views of a vector of stored tags.
pub open spec fn pending_view(ts: Seq<StoredTag>) -> Seq<StoredTagView> {
    ts.map_values(|x: StoredTag| x@)
}

/// Whether one of the first `n` tags equals this one structurally.
fn tag_in_prefix(tags: &Vec<BookTag>, n: usize, t: &BookTag) -> (r: bool)
    requires
        n <= tags@.len(),
    ensures
        r == tags_view(tags@).take(n as int).contains(t@),
{
    let ghost tsv = tags_view(tags@);
    let mut j: usize = 0;
    while j < n
        invariant
            0 <= j <= n <= tags@.len(),
            tsv == tags_view(tags@),
            forall|k: int| 0 <= k < j ==> tsv[k] != t@,
        decreases n - j,
    {
        if eq_tag(&tags[j], t) {
            proof {
                assert(tsv.take(n as int)[j as int] == tsv[j as int]);
                assert(tsv[j as int] == tags@[j as int]@);
            }
            return true;
        }
        proof {
            assert(tsv[j as int] == tags@[j as int]@);
        }
        j = j + 1;
    }
    proof {
        assert forall|k: int| 0 <= k < n implies tsv.take(n as int)[k] != t@ by {
            assert(tsv.take(n as int)[k] == tsv[k]);
        }
    }
    false
}

/// The surrogate id of the first stored tag structurally equal to this
/// one, if any.
fn find_tag_in(list: &Vec<StoredTag>, t: &BookTag) -> (r: Option<u64>)
    ensures
        match r {
            Some(tid) => tag_pair_in(pending_view(list@), t@) && tid == tag_id_of(
                pending_view(list@),
                t@,
            ),
            None => !tag_pair_in(pending_view(list@), t@),
        },
{
    let ghost ts = pending_view(list@);
    proof {
        assert(ts.skip(0) =~= ts);
    }
    let mut j: usize = 0;
    while j < list.len()
        invariant
            0 <= j <= list@.len(),
            ts == pending_view(list@),
            ts.len() == list@.len(),
            tag_id_of(ts, t@) == tag_id_of(ts.skip(j as int), t@),
            forall|k: int| 0 <= k < j ==> ((#[trigger] ts[k]).kind, ts[k].name) != t@,
        decreases list@.len() - j,
    {
        proof {
            assert(ts.skip(j as int)[0] == ts[j as int]);
            assert(ts[j as int] == list@[j as int]@);
        }
        if eq_tag(&list[j].tag, t) {
            proof {
                assert((ts[j as int].kind, ts[j as int].name) == t@);
                assert(tag_pair_in(ts, t@));
            }
            return Some(list[j].id);
        }
        proof {
            assert(ts.skip(j as int).skip(1) =~= ts.skip(j + 1));
        }
        j = j + 1;
    }
    proof {
        assert(!tag_pair_in(ts, t@));
    }
    None
}

/// Whether the first `n` entries hold this id.
fn contains_upto(ids: &Vec<u64>, n: usize, id: u64) -> (r: bool)
    requires
        n <= ids@.len(),
    ensures
        r == ids@.take(n as int).contains(id),
{
    let mut j: usize = 0;
    while j < n
        invariant
            0 <= j <= n <= ids@.len(),
            forall|k: int| 0 <= k < j ==> ids@[k] != id,
        decreases n - j,
    {
        if ids[j] == id {
            proof {
                assert(ids@.take(n as int)[j as int] == id);
            }
            return true;
        }
        j = j + 1;
    }
    proof {
        assert(forall|k: int| 0 <= k < n ==> ids@.take(n as int)[k] == ids@[k]);
    }
    false
}

/// Whether a (kind, name) pair is already stored.
pub open spec fn tag_pair_in(ts: Seq<StoredTagView>, t: (Seq<char>, Seq<char>)) -> bool {
    exists|i: int| 0 <= i < ts.len() && ((#[trigger] ts[i]).kind, ts[i].name) == t
}

/// The surrogate id of the first stored tag with this (kind, name).
pub open spec fn tag_id_of(ts: Seq<StoredTagView>, t: (Seq<char>, Seq<char>)) -> u64
    decreases ts.len(),
{
    if ts.len() == 0 {
        0
    } else if (ts[0].kind, ts[0].name) == t {
        ts[0].id
    } else {
        tag_id_of(ts.skip(1), t)
    }
}

/// The insert-or-ignore upsert of a book's tag list, resolving every
/// distinct tag to a surrogate id: an already-stored (kind, name)
/// keeps its row and yields its existing id, a new one is appended
/// under the next id, and a duplicate within the list is skipped.
/// Returns the catalog after the upsert and the resolved ids, one per
/// distinct tag in first-occurrence order.
pub open spec fn spec_upsert_tags(cat: CatalogView, ts: Seq<(Seq<char>, Seq<char>)>) -> (
    CatalogView,
    Seq<u64>,
)
    decreases ts.len(),
{
    if ts.len() == 0 {
        (cat, Seq::empty())
    } else {
        let (c, ids) = spec_upsert_tags(cat, ts.drop_last());
        let t = ts.last();
        if ts.drop_last().contains(t) {
            (c, ids)
        } else if tag_pair_in(c.tags, t) {
            (c, ids.push(tag_id_of(c.tags, t)))
        } else {
            (
                CatalogView {
                    tags: c.tags.push(
                        StoredTagView { id: c.next_tag_id as u64, kind: t.0, name: t.1 },
                    ),
                    next_tag_id: c.next_tag_id + 1,
                    ..c
                },
                ids.push(c.next_tag_id as u64),
            )
        }
    }
}

/// The stored scalar row of a book entity.
pub open spec fn stored_of(b: BookView) -> StoredBookView {
    StoredBookView {
        id: b.id,
        title: b.title,
        page: b.page,
        language: b.language,
        kind: b.kind,
        created_at: b.created_at,
    }
}

/// What a successful `add` writes, in one transaction: the tag upsert,
/// the book's scalar row, and one join row per distinct tag, in
/// first-occurrence order.
pub open spec fn spec_add(cat: CatalogView, b: BookView) -> CatalogView {
    let (c1, ids) = spec_upsert_tags(cat, b.tags);
    CatalogView {
        books: c1.books.push(stored_of(b)),
        refs: c1.refs + ids.map_values(|tid: u64| JoinRow { book_id: b.id, tag_id: tid }),
        ..c1
    }
}

/// An absent id means no stored book carries it.
pub proof fn lemma_book_with_id_none(bs: Seq<StoredBookView>, id: u64)
    requires
        book_with_id(bs, id) is None,
    ensures
        forall|k: int| 0 <= k < bs.len() ==> (#[trigger] bs[k]).id != id,
    decreases bs.len(),
{
    if bs.len() > 0 {
        lemma_book_with_id_none(bs.skip(1), id);
        assert forall|k: int| 0 <= k < bs.len() implies (#[trigger] bs[k]).id != id by {
            if k >= 1 {
                assert(bs.skip(1)[k - 1] == bs[k]);
            }
        }
    }
}

/// A stored pair is found under its first id.
proof fn lemma_tag_pair_found(ts: Seq<StoredTagView>, t: (Seq<char>, Seq<char>))
    requires
        tag_pair_in(ts, t),
    ensures
        exists|j: int|
            0 <= j < ts.len() && (#[trigger] ts[j]).id == tag_id_of(ts, t) && (ts[j].kind,
            ts[j].name) == t,
    decreases ts.len(),
{
    if ts.len() > 0 && (ts[0].kind, ts[0].name) != t {
        assert(tag_pair_in(ts.skip(1), t)) by {
            let i = choose|i: int| 0 <= i < ts.len() && ((#[trigger] ts[i]).kind, ts[i].name) == t;
            assert(ts.skip(1)[i - 1] == ts[i]);
        }
        lemma_tag_pair_found(ts.skip(1), t);
        let j = choose|j: int|
            0 <= j < ts.skip(1).len() && (#[trigger] ts.skip(1)[j]).id == tag_id_of(ts.skip(1), t)
                && (ts.skip(1)[j].kind, ts.skip(1)[j].name) == t;
        assert(ts[j + 1] == ts.skip(1)[j]);
    }
}

/// Pair search distributes over concatenation, preferring the left.
proof fn lemma_tag_concat(a: Seq<StoredTagView>, b: Seq<StoredTagView>, t: (Seq<char>, Seq<char>))
    ensures
        tag_pair_in(a + b, t) == (tag_pair_in(a, t) || tag_pair_in(b, t)),
        tag_id_of(a + b, t) == if tag_pair_in(a, t) {
            tag_id_of(a, t)
        } else {
            tag_id_of(b, t)
        },
    decreases a.len(),
{
    if a.len() == 0 {
        assert(a + b =~= b);
        assert(!tag_pair_in(a, t));
    } else {
        assert((a + b)[0] == a[0]);
        assert((a + b).skip(1) =~= a.skip(1) + b);
        lemma_tag_concat(a.skip(1), b, t);
        if (a[0].kind, a[0].name) == t {
            assert(tag_pair_in(a, t));
            assert(tag_pair_in(a + b, t)) by {
                assert((a + b)[0] == a[0]);
            }
        } else {
            assert(tag_pair_in(a, t) == tag_pair_in(a.skip(1), t)) by {
                if tag_pair_in(a, t) {
                    let i = choose|i: int|
                        0 <= i < a.len() && ((#[trigger] a[i]).kind, a[i].name) == t;
                    assert(a.skip(1)[i - 1] == a[i]);
                }
                if tag_pair_in(a.skip(1), t) {
                    let i = choose|i: int|
                        0 <= i < a.skip(1).len() && ((#[trigger] a.skip(1)[i]).kind,
                        a.skip(1)[i].name) == t;
                    assert(a[i + 1] == a.skip(1)[i]);
                }
            }
            assert(tag_pair_in(a + b, t) == tag_pair_in((a + b).skip(1), t)) by {
                if tag_pair_in(a + b, t) {
                    let i = choose|i: int|
                        0 <= i < (a + b).len() && ((#[trigger] (a + b)[i]).kind, (a + b)[i].name)
                            == t;
                    assert(i != 0);
                    assert((a + b).skip(1)[i - 1] == (a + b)[i]);
                }
                if tag_pair_in((a + b).skip(1), t) {
                    let i = choose|i: int|
                        0 <= i < (a + b).skip(1).len() && ((#[trigger] (a + b).skip(1)[i]).kind,
                        (a + b).skip(1)[i].name) == t;
                    assert((a + b)[i + 1] == (a + b).skip(1)[i]);
                }
            }
        }
    }
}

/// The upsert leaves books, join rows and the stored prefix of tags
/// untouched, keeps the store well formed while ids last, and resolves
/// every returned id to a stored tag.
proof fn lemma_upsert_tags_wf(cat: CatalogView, ts: Seq<(Seq<char>, Seq<char>)>)
    requires
        catalog_wf(cat),
        forall|k: int| 0 <= k < ts.len() ==> is_tag_kind((#[trigger] ts[k]).0),
    ensures
        ({
            let (c1, ids) = spec_upsert_tags(cat, ts);
            &&& c1.books == cat.books
            &&& c1.refs == cat.refs
            &&& cat.next_tag_id <= c1.next_tag_id
            &&& c1.next_tag_id <= cat.next_tag_id + ts.len()
            &&& cat.tags.len() <= c1.tags.len()
            &&& forall|i: int| 0 <= i < cat.tags.len() ==> #[trigger] c1.tags[i] == cat.tags[i]
            &&& c1.next_tag_id <= u64::MAX ==> catalog_wf(c1)
            &&& forall|k: int|
                0 <= k < ids.len() ==> exists|j: int|
                    0 <= j < c1.tags.len() && (#[trigger] c1.tags[j]).id == #[trigger] ids[k]
        }),
    decreases ts.len(),
{
    if ts.len() > 0 {
        let ts0 = ts.drop_last();
        assert(forall|k: int| 0 <= k < ts0.len() ==> is_tag_kind((#[trigger] ts0[k]).0)) by {
            assert(forall|k: int| 0 <= k < ts0.len() ==> ts0[k] == ts[k]);
        }
        lemma_upsert_tags_wf(cat, ts0);
        let (c, ids) = spec_upsert_tags(cat, ts0);
        let t = ts.last();
        let (c1, ids1) = spec_upsert_tags(cat, ts);
        if ts0.contains(t) {
        } else if tag_pair_in(c.tags, t) {
            lemma_tag_pair_found(c.tags, t);
        } else {
            assert(c1.tags == c.tags.push(
                StoredTagView { id: c.next_tag_id as u64, kind: t.0, name: t.1 },
            ));
            assert(forall|i: int| 0 <= i < c.tags.len() ==> #[trigger] c1.tags[i] == c.tags[i]);
            assert(c1.tags[c1.tags.len() - 1] == StoredTagView {
                id: c.next_tag_id as u64,
                kind: t.0,
                name: t.1,
            });
            assert(ts[ts.len() - 1] == t);
            assert(is_tag_kind(t.0));
            if c1.next_tag_id <= u64::MAX {
                assert(catalog_wf(c)) by {
                    assert(c.next_tag_id <= u64::MAX);
                }
                let new_tag = StoredTagView { id: c.next_tag_id as u64, kind: t.0, name: t.1 };
                assert(c.next_tag_id as u64 as int == c.next_tag_id);
                assert(forall|i: int| 0 <= i < c.tags.len() ==> c1.tags[i] == c.tags[i]);
                assert(c1.tags[c1.tags.len() - 1] == new_tag);
                assert forall|i: int, j: int|
                    0 <= i < j < c1.tags.len() implies (#[trigger] c1.tags[i]).id != (
                #[trigger] c1.tags[j]).id by {
                    if j == c1.tags.len() - 1 {
                        assert(c.tags[i].id < c.next_tag_id);
                    }
                }
                assert forall|i: int, j: int|
                    0 <= i < j < c1.tags.len() implies ((#[trigger] c1.tags[i]).kind,
                c1.tags[i].name) != ((#[trigger] c1.tags[j]).kind, c1.tags[j].name) by {
                    if j == c1.tags.len() - 1 {
                        assert(!tag_pair_in(c.tags, t));
                        assert(!(((c.tags[i]).kind, c.tags[i].name) == t));
                    }
                }
                assert forall|i: int|
                    0 <= i < c1.tags.len() implies is_tag_kind((#[trigger] c1.tags[i]).kind) by {
                    if i < c.tags.len() {
                        assert(is_tag_kind(c.tags[i].kind));
                    }
                }
                assert forall|i: int|
                    0 <= i < c1.tags.len() implies (#[trigger] c1.tags[i]).id
                    < c1.next_tag_id by {
                    if i < c.tags.len() {
                        assert(c.tags[i].id < c.next_tag_id);
                    }
                }
                assert forall|i: int|
                    0 <= i < c1.refs.len() implies has_tag_id(
                    c1.tags,
                    (#[trigger] c1.refs[i]).tag_id,
                ) by {
                    assert(c1.refs[i] == c.refs[i]);
                    assert(has_tag_id(c.tags, c.refs[i].tag_id));
                    lemma_has_tag_id_push(c.tags, new_tag, c.refs[i].tag_id);
                }
                assert forall|i: int|
                    0 <= i < c1.refs.len() implies has_book_id(
                    c1.books,
                    (#[trigger] c1.refs[i]).book_id,
                ) by {
                    assert(c1.refs[i] == c.refs[i]);
                    assert(has_book_id(c.books, c.refs[i].book_id));
                }
                assert(catalog_wf(c1));
            }
            assert forall|k: int| 0 <= k < ids1.len() implies exists|j: int|
                0 <= j < c1.tags.len() && (#[trigger] c1.tags[j]).id == #[trigger] ids1[k] by {
                if k < ids.len() {
                    assert(ids1[k] == ids[k]);
                    let j = choose|j: int|
                        0 <= j < c.tags.len() && (#[trigger] c.tags[j]).id == ids[k];
                    assert(c1.tags[j].id == ids[k]);
                } else {
                    assert(ids1[k] == c.next_tag_id as u64);
                    assert(c1.tags[c1.tags.len() - 1].id == c.next_tag_id as u64);
                }
            }
        }
    }
}

/// The id demand of the upsert only grows with its input.
proof fn lemma_upsert_next_monotonic(cat: CatalogView, ts: Seq<(Seq<char>, Seq<char>)>, n: int)
    requires
        0 <= n <= ts.len(),
    ensures
        spec_upsert_tags(cat, ts.take(n)).0.next_tag_id <= spec_upsert_tags(cat, ts).0.next_tag_id,
    decreases ts.len() - n,
{
    if n < ts.len() {
        lemma_upsert_next_monotonic(cat, ts, n + 1);
        assert(ts.take(n + 1).drop_last() =~= ts.take(n));
        assert(spec_upsert_tags(cat, ts.take(n)).0.next_tag_id <= spec_upsert_tags(
            cat,
            ts.take(n + 1),
        ).0.next_tag_id);
    } else {
        assert(ts.take(n) =~= ts);
    }
}

/// A present id is found.
pub proof fn lemma_book_with_id_found(bs: Seq<StoredBookView>, id: u64)
    requires
        has_book_id(bs, id),
    ensures
        book_with_id(bs, id) is Some,
    decreases bs.len(),
{
    if bs.len() > 0 && bs[0].id != id {
        let j = choose|j: int| 0 <= j < bs.len() && (#[trigger] bs[j]).id == id;
        assert(bs.skip(1)[j - 1] == bs[j]);
        lemma_book_with_id_found(bs.skip(1), id);
    }
}

/// An id no stored book carries is not found.
pub proof fn lemma_book_with_id_absent(bs: Seq<StoredBookView>, id: u64)
    requires
        forall|k: int| 0 <= k < bs.len() ==> (#[trigger] bs[k]).id != id,
    ensures
        book_with_id(bs, id) is None,
    decreases bs.len(),
{
    if bs.len() > 0 {
        assert(forall|k: int| 0 <= k < bs.skip(1).len() ==> bs.skip(1)[k] == bs[k + 1]);
        lemma_book_with_id_absent(bs.skip(1), id);
    }
}

/// A fetched book carries exactly its stored tag rows: one tag per
/// join row of the book, however many there are — none, one or many.
/// Together with `get_one`'s contract this pins the single returned
/// book and its full tag list.
pub proof fn lemma_get_one_tag_count(cat: CatalogView, b: StoredBookView)
    ensures
        book_of(cat, b).tags.len() == refs_of(cat.refs, b.id).len(),
{
}

/// Adding a book makes its id present: an immediate second `add` with
/// the same id takes the conflict path, reports "not added" and leaves
/// the store exactly as the first add left it, whatever its tag list.
pub proof fn lemma_add_idempotent(cat: CatalogView, b: BookView)
    ensures
        book_with_id(spec_add(cat, b).books, b.id) is Some,
{
    let c1 = spec_upsert_tags(cat, b.tags).0;
    let bs = spec_add(cat, b).books;
    assert(bs == c1.books.push(stored_of(b)));
    assert(bs[bs.len() - 1].id == b.id);
    assert(has_book_id(bs, b.id));
    lemma_book_with_id_found(bs, b.id);
}

/// The position of an id's first appearance.
pub open spec fn first_pos(ids: Seq<u64>, id: u64) -> int
    decreases ids.len(),
{
    if ids.len() == 0 {
        0
    } else if ids[0] == id {
        0
    } else {
        1 + first_pos(ids.skip(1), id)
    }
}

/// A present id's first position is in range and carries it.
proof fn lemma_first_pos_contains(ids: Seq<u64>, id: u64)
    requires
        ids.contains(id),
    ensures
        0 <= first_pos(ids, id) < ids.len(),
        ids[first_pos(ids, id)] == id,
    decreases ids.len(),
{
    if ids.len() > 0 && ids[0] != id {
        assert(ids.skip(1).contains(id)) by {
            let j = choose|j: int| 0 <= j < ids.len() && ids[j] == id;
            assert(ids.skip(1)[j - 1] == ids[j]);
        }
        lemma_first_pos_contains(ids.skip(1), id);
        assert(ids[first_pos(ids, id)] == ids.skip(1)[first_pos(ids.skip(1), id)]);
    }
}

/// Appending an id changes no present id's first position.
proof fn lemma_first_pos_push(ids: Seq<u64>, y: u64, id: u64)
    requires
        ids.contains(id),
    ensures
        first_pos(ids.push(y), id) == first_pos(ids, id),
    decreases ids.len(),
{
    if ids.len() > 0 && ids[0] != id {
        assert(ids.skip(1).contains(id)) by {
            let j = choose|j: int| 0 <= j < ids.len() && ids[j] == id;
            assert(ids.skip(1)[j - 1] == ids[j]);
        }
        assert(ids.push(y).skip(1) =~= ids.skip(1).push(y));
        lemma_first_pos_push(ids.skip(1), y, id);
    }
}

/// An id first appended at the end first appears at the end.
proof fn lemma_first_pos_new(ids: Seq<u64>, id: u64)
    requires
        !ids.contains(id),
    ensures
        first_pos(ids.push(id), id) == ids.len(),
    decreases ids.len(),
{
    if ids.len() == 0 {
        assert(ids.push(id)[0] == id);
    } else {
        assert(ids[0] != id) by {
            assert(ids.contains(id) <== ids[0] == id);
        }
        assert(!ids.skip(1).contains(id)) by {
            if ids.skip(1).contains(id) {
                let j = choose|j: int| 0 <= j < ids.skip(1).len() && ids.skip(1)[j] == id;
                assert(ids[j + 1] == id);
            }
        }
        assert(ids.push(id).skip(1) =~= ids.skip(1).push(id));
        lemma_first_pos_new(ids.skip(1), id);
    }
}

/// The id-list read returns the stored books of the listed ids, in the
/// exact order of each id's first appearance in the list: an unknown
/// id produces no entry, a duplicate id no further entry, and every
/// listed id with a stored book appears exactly once.
pub proof fn lemma_get_many_by_ids_order(cat: CatalogView, ids: Seq<u64>)
    ensures
        ({
            let sel = selected_books(cat, ids);
            &&& ids_distinct(sel)
            &&& forall|k: int|
                0 <= k < sel.len() ==> ids.contains((#[trigger] sel[k]).id) && book_with_id(
                    cat.books,
                    sel[k].id,
                ) == Some(sel[k])
            &&& forall|id: u64|
                ids.contains(id) && book_with_id(cat.books, id) is Some ==> exists|k: int|
                    0 <= k < sel.len() && (#[trigger] sel[k]).id == id
            &&& forall|k1: int, k2: int|
                0 <= k1 < k2 < sel.len() ==> first_pos(ids, (#[trigger] sel[k1]).id) < first_pos(
                    ids,
                    (#[trigger] sel[k2]).id,
                )
        }),
    decreases ids.len(),
{
    lemma_selected_books(cat, ids);
    if ids.len() > 0 {
        let ids0 = ids.drop_last();
        let id = ids.last();
        lemma_get_many_by_ids_order(cat, ids0);
        let prev = selected_books(cat, ids0);
        let sel = selected_books(cat, ids);
        assert(ids0.push(id) =~= ids);
        // Present ids keep their first position when the list grows.
        assert forall|k: int|
            0 <= k < prev.len() implies first_pos(ids, (#[trigger] prev[k]).id) == first_pos(
            ids0,
            prev[k].id,
        ) && first_pos(ids0, prev[k].id) < ids0.len() by {
            lemma_first_pos_push(ids0, id, prev[k].id);
            lemma_first_pos_contains(ids0, prev[k].id);
        }
        if !ids0.contains(id) && book_with_id(cat.books, id) is Some {
            let b = book_with_id(cat.books, id)->0;
            lemma_book_with_id_props(cat.books, id);
            assert(sel == prev.push(b));
            lemma_first_pos_new(ids0, id);
            assert(first_pos(ids, b.id) == ids0.len());
            assert forall|k1: int, k2: int|
                0 <= k1 < k2 < sel.len() implies first_pos(ids, (#[trigger] sel[k1]).id)
                < first_pos(ids, (#[trigger] sel[k2]).id) by {
                if k2 < prev.len() {
                    assert(sel[k1] == prev[k1] && sel[k2] == prev[k2]);
                } else {
                    assert(sel[k2] == b);
                    assert(sel[k1] == prev[k1]);
                }
            }
            assert forall|x: u64|
                ids.contains(x) && book_with_id(cat.books, x) is Some implies exists|k: int|
                0 <= k < sel.len() && (#[trigger] sel[k]).id == x by {
                if x == id {
                    assert(sel[sel.len() - 1].id == x);
                } else {
                    assert(ids0.contains(x)) by {
                        let j = choose|j: int| 0 <= j < ids.len() && ids[j] == x;
                        assert(ids0[j] == ids[j]);
                    }
                    let k = choose|k: int| 0 <= k < prev.len() && (#[trigger] prev[k]).id == x;
                    assert(sel[k].id == x);
                }
            }
        } else {
            assert(sel == prev);
            assert forall|x: u64|
                ids.contains(x) && book_with_id(cat.books, x) is Some implies exists|k: int|
                0 <= k < sel.len() && (#[trigger] sel[k]).id == x by {
                if x == id {
                    if ids0.contains(id) {
                        let k = choose|k: int|
                            0 <= k < prev.len() && (#[trigger] prev[k]).id == x;
                        assert(sel[k].id == x);
                    }
                } else {
                    assert(ids0.contains(x)) by {
                        let j = choose|j: int| 0 <= j < ids.len() && ids[j] == x;
                        assert(ids0[j] == ids[j]);
                    }
                    let k = choose|k: int| 0 <= k < prev.len() && (#[trigger] prev[k]).id == x;
                    assert(sel[k].id == x);
                }
            }
        }
    }
}

/// One page of an ordered listing, by page number from 1.
pub open spec fn window_int(s: Seq<StoredBookView>, p: int, k: int) -> Seq<StoredBookView> {
    let lo = if p * (k - 1) <= s.len() {
        p * (k - 1)
    } else {
        s.len() as int
    };
    let hi = if p * k <= s.len() {
        p * k
    } else {
        s.len() as int
    };
    s.subrange(lo, hi)
}

/// The `page_window` of the listing is exactly this page.
pub proof fn lemma_page_window_int(s: Seq<StoredBookView>, per_page: usize, page: usize)
    requires
        page >= 1,
    ensures
        page_window(s, per_page, page) == window_int(s, per_page as int, page as int),
{
    assert((per_page as int) * (page as int - 1) + per_page == (per_page as int) * (
    page as int)) by (nonlinear_arith);
}

/// Pages 1..=k, concatenated in order.
pub open spec fn concat_pages(s: Seq<StoredBookView>, p: int, k: int) -> Seq<StoredBookView>
    decreases k,
{
    if k <= 0 {
        Seq::empty()
    } else {
        concat_pages(s, p, k - 1) + window_int(s, p, k)
    }
}

/// Concatenating pages 1..=k yields the first `p * k` books.
proof fn lemma_concat_pages_prefix(s: Seq<StoredBookView>, p: int, k: int)
    requires
        p >= 1,
        k >= 0,
    ensures
        concat_pages(s, p, k) == s.take(
            if p * k <= s.len() {
                p * k
            } else {
                s.len() as int
            },
        ),
    decreases k,
{
    if k == 0 {
        assert(concat_pages(s, p, 0) =~= s.take(0));
    } else {
        lemma_concat_pages_prefix(s, p, k - 1);
        assert(p * (k - 1) <= p * k && p * k - p * (k - 1) == p && 0 <= p * (k - 1)) by (
        nonlinear_arith)
            requires
                p >= 1,
                k >= 1,
        ;
        let lo = if p * (k - 1) <= s.len() {
            p * (k - 1)
        } else {
            s.len() as int
        };
        let hi = if p * k <= s.len() {
            p * k
        } else {
            s.len() as int
        };
        assert(concat_pages(s, p, k) == concat_pages(s, p, k - 1) + window_int(s, p, k));
        assert(concat_pages(s, p, k - 1) == s.take(lo));
        assert(window_int(s, p, k) == s.subrange(lo, hi));
        assert(s.take(lo) + s.subrange(lo, hi) =~= s.take(hi));
    }
}

/// Concatenating the pages of an id-sorted listing, first page onward
/// until the listing is exhausted, reconstructs the whole sorted
/// listing: no gaps, no repeats. Each page holds at most `p` books and
/// is full whenever enough books remain; the listing itself is the
/// kind-filtered books, each exactly once, sorted by id in the chosen
/// direction.
pub proof fn lemma_get_many_pages_reconstruct(
    cat: CatalogView,
    kind: Option<BookKind>,
    dir: Sort,
    p: int,
    pages: int,
)
    requires
        catalog_wf(cat),
        p >= 1,
        pages >= 0,
        p * pages >= ordered_books(cat, kind, BookSortBy::Id(dir)).len(),
    ensures
        ({
            let s = ordered_books(cat, kind, BookSortBy::Id(dir));
            let f = filtered_books(cat.books, kind);
            &&& concat_pages(s, p, pages) == s
            &&& sorted_by_id(s, dir is Asc)
            &&& ids_distinct(s)
            &&& s.len() == f.len()
            &&& forall|k: int| 0 <= k < s.len() ==> f.contains(#[trigger] s[k])
            &&& forall|k: int| 0 <= k < f.len() ==> s.contains(#[trigger] f[k])
            &&& forall|k: int| 1 <= k <= pages ==> window_int(s, p, k).len() <= p
            &&& forall|k: int|
                1 <= k <= pages && p * k <= s.len() ==> window_int(s, p, k).len() == p
        }),
{
    let s = ordered_books(cat, kind, BookSortBy::Id(dir));
    let f = filtered_books(cat.books, kind);
    lemma_filtered_books(cat.books, kind);
    lemma_sort_by_id(f, dir is Asc);
    assert(s == sort_by_id(f, dir is Asc)) by {
        if dir is Asc {
        } else {
        }
    }
    lemma_concat_pages_prefix(s, p, pages);
    assert(s.take(
        if p * pages <= s.len() {
            p * pages
        } else {
            s.len() as int
        },
    ) =~= s);
    assert forall|k: int| 1 <= k <= pages implies window_int(s, p, k).len() <= p by {
        assert(p * (k - 1) <= p * k && p * k - p * (k - 1) == p) by (nonlinear_arith)
            requires
                p >= 1,
                k >= 1,
        ;
    }
    assert forall|k: int|
        1 <= k <= pages && p * k <= s.len() implies window_int(s, p, k).len() == p by {
        assert(p * (k - 1) <= p * k && p * k - p * (k - 1) == p) by (nonlinear_arith)
            requires
                p >= 1,
                k >= 1,
        ;
    }
}

/// The upsert only appends tags; books and join rows are untouched.
proof fn lemma_upsert_tags_prefix(cat: CatalogView, ts: Seq<(Seq<char>, Seq<char>)>)
    ensures
        ({
            let (c1, ids) = spec_upsert_tags(cat, ts);
            &&& c1.books == cat.books
            &&& c1.refs == cat.refs
            &&& cat.tags.len() <= c1.tags.len()
            &&& forall|i: int| 0 <= i < cat.tags.len() ==> #[trigger] c1.tags[i] == cat.tags[i]
        }),
    decreases ts.len(),
{
    if ts.len() > 0 {
        lemma_upsert_tags_prefix(cat, ts.drop_last());
    }
}

/// Once a pair is stored, appended rows change neither its presence
/// nor its resolved id.
proof fn lemma_tag_id_stable(a: Seq<StoredTagView>, b: Seq<StoredTagView>, t: (Seq<char>, Seq<char>))
    requires
        tag_pair_in(a, t),
        a.len() <= b.len(),
        forall|i: int| 0 <= i < a.len() ==> #[trigger] b[i] == a[i],
    ensures
        tag_pair_in(b, t),
        tag_id_of(b, t) == tag_id_of(a, t),
{
    assert(b =~= a + b.skip(a.len() as int));
    lemma_tag_concat(a, b.skip(a.len() as int), t);
}

/// Every tag of the upserted list is stored afterwards, and one of the
/// returned ids is the id it resolves to.
proof fn lemma_upsert_resolves(cat: CatalogView, ts: Seq<(Seq<char>, Seq<char>)>, t: (Seq<char>, Seq<char>))
    requires
        ts.contains(t),
    ensures
        ({
            let (c1, ids) = spec_upsert_tags(cat, ts);
            &&& tag_pair_in(c1.tags, t)
            &&& exists|k: int| 0 <= k < ids.len() && #[trigger] ids[k] == tag_id_of(c1.tags, t)
        }),
    decreases ts.len(),
{
    let ts0 = ts.drop_last();
    let tl = ts.last();
    let (c, ids) = spec_upsert_tags(cat, ts0);
    let (c1, ids1) = spec_upsert_tags(cat, ts);
    lemma_upsert_tags_prefix(cat, ts0);
    if ts0.contains(t) {
        lemma_upsert_resolves(cat, ts0, t);
        let k = choose|k: int| 0 <= k < ids.len() && #[trigger] ids[k] == tag_id_of(c.tags, t);
        if ts0.contains(tl) {
            assert(c1 == c && ids1 == ids);
            assert(ids1[k] == tag_id_of(c1.tags, t));
        } else if tag_pair_in(c.tags, tl) {
            assert(c1 == c);
            assert(ids1[k] == ids[k]);
            assert(ids1[k] == tag_id_of(c1.tags, t));
        } else {
            assert(c1.tags == c.tags.push(
                StoredTagView { id: c.next_tag_id as u64, kind: tl.0, name: tl.1 },
            ));
            assert(forall|i: int| 0 <= i < c.tags.len() ==> #[trigger] c1.tags[i] == c.tags[i]);
            lemma_tag_id_stable(c.tags, c1.tags, t);
            assert(ids1[k] == ids[k]);
            assert(ids1[k] == tag_id_of(c1.tags, t));
        }
    } else {
        assert(t == tl) by {
            let j = choose|j: int| 0 <= j < ts.len() && ts[j] == t;
            if j < ts0.len() {
                assert(ts0[j] == t);
            }
        }
        if tag_pair_in(c.tags, t) {
            assert(c1 == c);
            assert(ids1 == ids.push(tag_id_of(c.tags, t)));
            assert(ids1[ids1.len() - 1] == tag_id_of(c1.tags, t));
        } else {
            let new_tag = StoredTagView { id: c.next_tag_id as u64, kind: t.0, name: t.1 };
            assert(c1.tags == c.tags.push(new_tag));
            assert(ids1 == ids.push(c.next_tag_id as u64));
            assert(tag_pair_in(c1.tags, t)) by {
                assert(c1.tags[c1.tags.len() - 1] == new_tag);
            }
            assert(c1.tags =~= c.tags + seq![new_tag]);
            lemma_tag_concat(c.tags, seq![new_tag], t);
            assert(tag_id_of(seq![new_tag], t) == new_tag.id) by {
                assert(seq![new_tag][0] == new_tag);
            }
            assert(ids1[ids1.len() - 1] == tag_id_of(c1.tags, t));
        }
    }
}

/// A successful `add` leaves the store well formed.
proof fn lemma_spec_add_wf(cat: CatalogView, b: BookView)
    requires
        catalog_wf(cat),
        forall|k: int| 0 <= k < b.tags.len() ==> is_tag_kind((#[trigger] b.tags[k]).0),
        book_with_id(cat.books, b.id) is None,
        spec_upsert_tags(cat, b.tags).0.next_tag_id <= u64::MAX,
    ensures
        catalog_wf(spec_add(cat, b)),
{
    lemma_upsert_tags_wf(cat, b.tags);
    lemma_book_with_id_none(cat.books, b.id);
    let (c1, ids) = spec_upsert_tags(cat, b.tags);
    let cat2 = spec_add(cat, b);
    assert(cat2.tags == c1.tags && cat2.next_tag_id == c1.next_tag_id);
    assert(cat2.books == cat.books.push(stored_of(b)));
    assert(cat2.refs == c1.refs + ids.map_values(
        |tid: u64| JoinRow { book_id: b.id, tag_id: tid },
    ));
    assert forall|x: int, y: int|
        0 <= x < y < cat2.books.len() implies (#[trigger] cat2.books[x]).id != (
    #[trigger] cat2.books[y]).id by {
        if y == cat2.books.len() - 1 {
            assert(cat2.books[x] == cat.books[x]);
            assert(cat.books[x].id != b.id);
        } else {
            assert(cat2.books[x] == cat.books[x] && cat2.books[y] == cat.books[y]);
        }
    }
    assert forall|x: int|
        0 <= x < cat2.refs.len() implies has_tag_id(
        cat2.tags,
        (#[trigger] cat2.refs[x]).tag_id,
    ) by {
        if x < c1.refs.len() {
            assert(cat2.refs[x] == c1.refs[x]);
            assert(has_tag_id(c1.tags, c1.refs[x].tag_id));
        } else {
            let w = x - c1.refs.len();
            assert(cat2.refs[x] == ids.map_values(
                |tid: u64| JoinRow { book_id: b.id, tag_id: tid },
            )[w]);
            assert(cat2.refs[x].tag_id == ids[w]);
            let j = choose|j: int| 0 <= j < c1.tags.len() && (#[trigger] c1.tags[j]).id == ids[w];
            assert(cat2.tags[j].id == ids[w]);
        }
    }
    assert forall|x: int|
        0 <= x < cat2.refs.len() implies has_book_id(
        cat2.books,
        (#[trigger] cat2.refs[x]).book_id,
    ) by {
        if x < c1.refs.len() {
            assert(cat2.refs[x] == c1.refs[x]);
            assert(has_book_id(c1.books, c1.refs[x].book_id));
            assert(c1.books == cat.books);
            lemma_has_book_id_push(cat.books, stored_of(b), c1.refs[x].book_id);
        } else {
            let w = x - c1.refs.len();
            assert(cat2.refs[x] == ids.map_values(
                |tid: u64| JoinRow { book_id: b.id, tag_id: tid },
            )[w]);
            assert(cat2.refs[x].book_id == b.id);
            assert(cat2.books[cat2.books.len() - 1].id == b.id);
        }
    }
    assert(catalog_wf(cat2));
}

/// The tag upsert is structural: adding two distinct books that each
/// carry a tag with the same (kind, name) stores exactly one tag row
/// for it — the well-formed store holds no second row with that pair —
/// and the two books' join rows reference that one row's id.
pub proof fn lemma_tag_upsert_structural(
    cat: CatalogView,
    b1: BookView,
    b2: BookView,
    t: (Seq<char>, Seq<char>),
)
    requires
        catalog_wf(cat),
        forall|k: int| 0 <= k < b1.tags.len() ==> is_tag_kind((#[trigger] b1.tags[k]).0),
        forall|k: int| 0 <= k < b2.tags.len() ==> is_tag_kind((#[trigger] b2.tags[k]).0),
        b1.tags.contains(t),
        b2.tags.contains(t),
        b1.id != b2.id,
        book_with_id(cat.books, b1.id) is None,
        book_with_id(cat.books, b2.id) is None,
        spec_upsert_tags(cat, b1.tags).0.next_tag_id <= u64::MAX,
        spec_upsert_tags(spec_add(cat, b1), b2.tags).0.next_tag_id <= u64::MAX,
    ensures
        ({
            let cat2 = spec_add(spec_add(cat, b1), b2);
            let tid = tag_id_of(cat2.tags, t);
            &&& catalog_wf(cat2)
            &&& tag_pair_in(cat2.tags, t)
            &&& cat2.refs.contains(JoinRow { book_id: b1.id, tag_id: tid })
            &&& cat2.refs.contains(JoinRow { book_id: b2.id, tag_id: tid })
        }),
{
    let (c1, ids1) = spec_upsert_tags(cat, b1.tags);
    let cat1 = spec_add(cat, b1);
    let (c2, ids2) = spec_upsert_tags(cat1, b2.tags);
    let cat2 = spec_add(cat1, b2);
    lemma_spec_add_wf(cat, b1);
    assert(book_with_id(cat1.books, b2.id) is None) by {
        lemma_book_with_id_none(cat.books, b2.id);
        assert(cat1.books == c1.books.push(stored_of(b1)));
        lemma_upsert_tags_prefix(cat, b1.tags);
        assert forall|k: int| 0 <= k < cat1.books.len() implies (#[trigger] cat1.books[k]).id
            != b2.id by {
            if k < cat.books.len() {
                assert(cat1.books[k] == cat.books[k]);
            } else {
                assert(cat1.books[k] == stored_of(b1));
            }
        }
        lemma_book_with_id_absent(cat1.books, b2.id);
    }
    lemma_spec_add_wf(cat1, b2);
    // The shared pair is stored by the first add and resolved to the
    // same id by the second.
    lemma_upsert_resolves(cat, b1.tags, t);
    let k1 = choose|k: int| 0 <= k < ids1.len() && #[trigger] ids1[k] == tag_id_of(c1.tags, t);
    lemma_upsert_resolves(cat1, b2.tags, t);
    let k2 = choose|k: int| 0 <= k < ids2.len() && #[trigger] ids2[k] == tag_id_of(c2.tags, t);
    // The pair's id is stable from the first upsert to the final store.
    assert(cat1.tags == c1.tags);
    lemma_upsert_tags_prefix(cat1, b2.tags);
    assert(cat2.tags == c2.tags);
    lemma_tag_id_stable(c1.tags, c2.tags, t);
    let tid = tag_id_of(cat2.tags, t);
    assert(tid == tag_id_of(c1.tags, t));
    // Both join rows are present in the final store.
    assert(cat1.refs == c1.refs + ids1.map_values(
        |x: u64| JoinRow { book_id: b1.id, tag_id: x },
    ));
    assert(cat2.refs == c2.refs + ids2.map_values(
        |x: u64| JoinRow { book_id: b2.id, tag_id: x },
    ));
    assert(c2.refs == cat1.refs);
    lemma_upsert_tags_prefix(cat, b1.tags);
    assert(cat2.refs.contains(JoinRow { book_id: b1.id, tag_id: tid })) by {
        let w = c1.refs.len() + k1;
        assert(cat1.refs[w] == ids1.map_values(|x: u64| JoinRow { book_id: b1.id, tag_id: x })[k1]);
        assert(cat1.refs[w] == JoinRow { book_id: b1.id, tag_id: tid });
        assert(cat2.refs[w] == cat1.refs[w]);
    }
    assert(cat2.refs.contains(JoinRow { book_id: b2.id, tag_id: tid })) by {
        let w = c2.refs.len() + k2;
        assert(cat2.refs[w] == ids2.map_values(|x: u64| JoinRow { book_id: b2.id, tag_id: x })[k2]);
        assert(ids2[k2] == tid);
        assert(cat2.refs[w] == JoinRow { book_id: b2.id, tag_id: tid });
    }
}

/// The in-memory book repository: the one store this crate implements
/// the full read/write protocol against.
pub struct InMemoryBookRepository {
    books: Vec<StoredBook>,
    tags: Vec<StoredTag>,
    refs: Vec<JoinRow>,
    next_tag_id: u64,
}

impl View for InMemoryBookRepository {
    type V = CatalogView;

    closed spec fn view(&self) -> CatalogView {
        CatalogView {
            books: self.books@.map_values(|b: StoredBook| b@),
            tags: self.tags@.map_values(|t: StoredTag| t@),
            refs: self.refs@,
            next_tag_id: self.next_tag_id as int,
        }
    }
}

impl InMemoryBookRepository {
    pub open spec fn wf(&self) -> bool {
        catalog_wf(self@)
    }

    /// An empty catalog; tag ids are allocated from 1 up, as the
    /// backend's auto-increment column would.
    pub fn new() -> (r: InMemoryBookRepository)
        ensures
            r.wf(),
            r@.books == Seq::<StoredBookView>::empty(),
            r@.tags == Seq::<StoredTagView>::empty(),
            r@.refs == Seq::<JoinRow>::empty(),
    {
        let r = InMemoryBookRepository {
            books: Vec::new(),
            tags: Vec::new(),
            refs: Vec::new(),
            next_tag_id: 1,
        };
        proof {
            assert(r@.books =~= Seq::<StoredBookView>::empty());
            assert(r@.tags =~= Seq::<StoredTagView>::empty());
        }
        r
    }

    /// The index of the book row with this id.
    fn find_book_index(&self, id: u64) -> (r: Option<usize>)
        ensures
            match r {
                Some(i) => i < self.books@.len() && book_with_id(self@.books, id) == Some(
                    self.books@[i as int]@,
                ) && self.books@[i as int]@.id == id,
                None => book_with_id(self@.books, id) is None,
            },
    {
        let ghost bs = self@.books;
        proof {
            assert(bs.skip(0) =~= bs);
        }
        let mut i: usize = 0;
        while i < self.books.len()
            invariant
                0 <= i <= bs.len(),
                bs.len() == self.books@.len(),
                bs == self@.books,
                book_with_id(bs, id) == book_with_id(bs.skip(i as int), id),
                forall|j: int| 0 <= j < i ==> (#[trigger] bs[j]).id != id,
            decreases bs.len() - i,
        {
            if self.books[i].id == id {
                proof {
                    assert(bs.skip(i as int)[0] == bs[i as int]);
                }
                return Some(i);
            }
            proof {
                assert(bs.skip(i as int)[0] == bs[i as int]);
                assert(bs.skip(i as int).skip(1) =~= bs.skip(i + 1));
            }
            i = i + 1;
        }
        proof {
            assert(bs.skip(bs.len() as int).len() == 0);
        }
        None
    }

    /// The index of the tag row with this surrogate id.
    fn find_tag_index(&self, tid: u64) -> (r: Option<usize>)
        ensures
            match r {
                Some(i) => i < self.tags@.len() && tag_with_id(self@.tags, tid) == Some(
                    self.tags@[i as int]@,
                ),
                None => tag_with_id(self@.tags, tid) is None,
            },
    {
        let ghost ts = self@.tags;
        proof {
            assert(ts.skip(0) =~= ts);
        }
        let mut i: usize = 0;
        while i < self.tags.len()
            invariant
                0 <= i <= ts.len(),
                ts.len() == self.tags@.len(),
                ts == self@.tags,
                tag_with_id(ts, tid) == tag_with_id(ts.skip(i as int), tid),
            decreases ts.len() - i,
        {
            if self.tags[i].id == tid {
                proof {
                    assert(ts.skip(i as int)[0] == ts[i as int]);
                }
                return Some(i);
            }
            proof {
                assert(ts.skip(i as int)[0] == ts[i as int]);
                assert(ts.skip(i as int).skip(1) =~= ts.skip(i + 1));
            }
            i = i + 1;
        }
        proof {
            assert(ts.skip(ts.len() as int).len() == 0);
        }
        None
    }

    /// Lay out one book's flat rows, as the join emits them.
    fn emit_rows_for_book(&self, b: &StoredBook) -> (rows: Vec<FlatRow>)
        requires
            self.wf(),
        ensures
            rows_view(rows@) == rows_for_book(self@, b@),
    {
        let ghost cat = self@;
        let mut rows: Vec<FlatRow> = Vec::new();
        let mut i: usize = 0;
        while i < self.refs.len()
            invariant
                self.wf(),
                cat == self@,
                0 <= i <= self.refs@.len(),
                rows_view(rows@) =~= refs_of(cat.refs.take(i as int), b.id).map_values(
                    |r: JoinRow|
                        scalar_row(
                            b@,
                            Some(
                                TagRowView {
                                    id: r.tag_id,
                                    kind: tag_with_id(cat.tags, r.tag_id)->0.kind,
                                    name: tag_with_id(cat.tags, r.tag_id)->0.name,
                                },
                            ),
                        ),
                ),
            decreases self.refs@.len() - i,
        {
            let jr = self.refs[i];
            let ghost old_rows = rows_view(rows@);
            proof {
                assert(cat.refs.take(i + 1).drop_last() =~= cat.refs.take(i as int));
                assert(cat.refs.take(i + 1).last() == cat.refs[i as int]);
                assert(cat.refs[i as int] == jr);
            }
            if jr.book_id == b.id {
                proof {
                    assert(has_tag_id(cat.tags, jr.tag_id));
                    lemma_tag_with_id_found(cat.tags, jr.tag_id);
                }
                let ti = match self.find_tag_index(jr.tag_id) {
                    Some(ti) => ti,
                    None => {
                        proof {
                            assert(false);
                        }
                        0
                    },
                };
                let st = &self.tags[ti];
                let row = FlatRow {
                    book_id: b.id,
                    title: b.title.clone(),
                    page: b.page,
                    language: b.language.clone(),
                    kind: b.kind.as_str().to_owned(),
                    created_at: b.created_at,
                    tag: Some(
                        TagRow {
                            id: st.id,
                            kind: st.tag.kind().to_owned(),
                            name: st.tag.name().to_owned(),
                        },
                    ),
                };
                proof {
                    assert(row@ == scalar_row(
                        b@,
                        Some(
                            TagRowView {
                                id: jr.tag_id,
                                kind: tag_with_id(cat.tags, jr.tag_id)->0.kind,
                                name: tag_with_id(cat.tags, jr.tag_id)->0.name,
                            },
                        ),
                    ));
                }
                rows.push(row);
                proof {
                    assert(refs_of(cat.refs.take(i + 1), b@.id) =~= refs_of(
                        cat.refs.take(i as int),
                        b@.id,
                    ).push(jr));
                    assert(rows_view(rows@) =~= old_rows.push(row@));
                }
            } else {
                proof {
                    assert(refs_of(cat.refs.take(i + 1), b@.id) =~= refs_of(
                        cat.refs.take(i as int),
                        b@.id,
                    ));
                }
            }
            i = i + 1;
        }
        proof {
            assert(cat.refs.take(cat.refs.len() as int) =~= cat.refs);
        }
        if rows.is_empty() {
            let row = FlatRow {
                book_id: b.id,
                title: b.title.clone(),
                page: b.page,
                language: b.language.clone(),
                kind: b.kind.as_str().to_owned(),
                created_at: b.created_at,
                tag: None,
            };
            proof {
                assert(refs_of(cat.refs, b@.id).len() == 0);
                assert(row@ == scalar_row(b@, None));
            }
            rows.push(row);
            proof {
                assert(rows_view(rows@) =~= rows_for_book(cat, b@));
            }
            rows
        } else {
            proof {
                assert(refs_of(cat.refs, b@.id).len() > 0);
            }
            rows
        }
    }

    /// Lay out the row stream for a page of stored books, block by
    /// block.
    fn collect_rows(&self, idxs: &Vec<usize>) -> (rows: Vec<FlatRow>)
        requires
            self.wf(),
            forall|k: int| 0 <= k < idxs@.len() ==> (#[trigger] idxs@[k]) < self.books@.len(),
        ensures
            rows_view(rows@) == rows_for_books(
                self@,
                idxs@.map_values(|k: usize| self@.books[k as int]),
            ),
    {
        let ghost cat = self@;
        let ghost sel = idxs@.map_values(|k: usize| cat.books[k as int]);
        let mut rows: Vec<FlatRow> = Vec::new();
        let mut k: usize = 0;
        while k < idxs.len()
            invariant
                self.wf(),
                cat == self@,
                sel == idxs@.map_values(|k: usize| cat.books[k as int]),
                0 <= k <= idxs@.len(),
                sel.len() == idxs@.len(),
                forall|j: int| 0 <= j < idxs@.len() ==> (#[trigger] idxs@[j]) < self.books@.len(),
                rows_view(rows@) =~= rows_for_books(cat, sel.take(k as int)),
            decreases idxs@.len() - k,
        {
            let ghost old_rows = rows_view(rows@);
            let mut block = self.emit_rows_for_book(&self.books[idxs[k]]);
            let ghost blockv = rows_view(block@);
            proof {
                assert(sel.take(k + 1).drop_last() =~= sel.take(k as int));
                assert(sel.take(k + 1).last() == sel[k as int]);
                assert(sel[k as int] == cat.books[idxs@[k as int] as int]);
                assert(self.books@[idxs@[k as int] as int]@ == cat.books[idxs@[k as int] as int]);
                assert(blockv == rows_for_book(cat, sel[k as int]));
            }
            rows.append(&mut block);
            proof {
                assert(rows_view(rows@) =~= old_rows + blockv);
            }
            k = k + 1;
        }
        proof {
            assert(sel.take(sel.len() as int) =~= sel);
        }
        rows
    }

    /// List a page of books: the optional kind filter, the sort, then
    /// the `per_page`-sized window of page `page` (1-indexed), each
    /// book with its full tag list.
    pub fn get_many(
        &self,
        kind: Option<BookKind>,
        per_page: usize,
        page: usize,
        sort_by: BookSortBy,
    ) -> (r: Result<Vec<Book>, RepositoryError>)
        requires
            self.wf(),
            page >= 1,
            per_page * page <= usize::MAX,
        ensures
            r matches Ok(books) && books_view(books@) == page_window(
                ordered_books(self@, kind, sort_by),
                per_page,
                page,
            ).map_values(|b: StoredBookView| book_of(self@, b)),
    {
        let ghost cat = self@;
        // The kind filter, in stored order.
        let mut filtered: Vec<StoredBook> = Vec::new();
        let mut i: usize = 0;
        while i < self.books.len()
            invariant
                self.wf(),
                cat == self@,
                0 <= i <= self.books@.len(),
                filtered@.map_values(|b: StoredBook| b@) =~= filtered_books(
                    cat.books.take(i as int),
                    kind,
                ),
            decreases self.books@.len() - i,
        {
            let b = &self.books[i];
            proof {
                assert(cat.books.take(i + 1).drop_last() =~= cat.books.take(i as int));
                assert(cat.books.take(i + 1).last() == cat.books[i as int]);
                assert(cat.books[i as int] == b@);
            }
            let keep = match kind {
                None => true,
                Some(k) => b.kind == k,
            };
            if keep {
                let ghost old_f = filtered@.map_values(|x: StoredBook| x@);
                filtered.push(clone_stored(b));
                proof {
                    assert(filtered@.map_values(|x: StoredBook| x@) =~= old_f.push(b@));
                }
            }
            i = i + 1;
        }
        proof {
            assert(cat.books.take(cat.books.len() as int) =~= cat.books);
        }
        let ghost fview = filtered_books(cat.books, kind);
        // The sort.
        let sorted: Vec<StoredBook> = match sort_by {
            BookSortBy::Id(Sort::Asc) => sort_books(filtered, true),
            BookSortBy::Id(Sort::Desc) => sort_books(filtered, false),
            BookSortBy::Random => filtered,
        };
        let ghost oview = ordered_books(cat, kind, sort_by);
        proof {
            assert(sorted@.map_values(|b: StoredBook| b@) == oview);
            lemma_filtered_books(cat.books, kind);
            match sort_by {
                BookSortBy::Id(Sort::Asc) => lemma_sort_by_id(fview, true),
                BookSortBy::Id(Sort::Desc) => lemma_sort_by_id(fview, false),
                BookSortBy::Random => {},
            }
            assert(ids_distinct(oview));
        }
        // The page window.
        proof {
            assert(per_page * (page - 1) <= per_page * page) by (nonlinear_arith)
                requires
                    page >= 1,
                    per_page >= 0,
            ;
        }
        let start = per_page * (page - 1);
        let mut win: Vec<StoredBook> = Vec::new();
        let mut idx: usize = start;
        while idx < sorted.len() && idx - start < per_page
            invariant
                sorted@.map_values(|b: StoredBook| b@) == oview,
                start <= idx <= usize::MAX,
                idx - start <= per_page,
                idx > start ==> idx <= oview.len(),
                win@.map_values(|b: StoredBook| b@) =~= oview.subrange(
                    if start <= oview.len() {
                        start as int
                    } else {
                        oview.len() as int
                    },
                    if idx <= oview.len() {
                        idx as int
                    } else {
                        oview.len() as int
                    },
                ),
            decreases oview.len() - idx,
        {
            let ghost old_w = win@.map_values(|b: StoredBook| b@);
            win.push(clone_stored(&sorted[idx]));
            proof {
                assert(win@.map_values(|b: StoredBook| b@) =~= old_w.push(oview[idx as int]));
            }
            idx = idx + 1;
        }
        let ghost wview = page_window(oview, per_page, page);
        proof {
            assert(win@.map_values(|b: StoredBook| b@) =~= wview);
            assert(ids_distinct(wview)) by {
                assert(forall|k: int|
                    0 <= k < wview.len() ==> wview[k] == oview[k + (if start <= oview.len() {
                        start as int
                    } else {
                        oview.len() as int
                    })]);
            }
            lemma_rows_for_books(cat, wview);
        }
        // The join rows of the window, folded back to entities.
        let rows = self.collect_rows_books(&win);
        match into_books(rows) {
            Ok(books) => Ok(books),
            Err(e) => {
                proof {
                    assert(false);
                }
                Err(RepositoryError::Decode(e))
            },
        }
    }

    /// Lay out the row stream for a page of books given by value.
    fn collect_rows_books(&self, bs: &Vec<StoredBook>) -> (rows: Vec<FlatRow>)
        requires
            self.wf(),
        ensures
            rows_view(rows@) == rows_for_books(self@, bs@.map_values(|b: StoredBook| b@)),
    {
        let ghost cat = self@;
        let ghost sel = bs@.map_values(|b: StoredBook| b@);
        let mut rows: Vec<FlatRow> = Vec::new();
        let mut k: usize = 0;
        while k < bs.len()
            invariant
                self.wf(),
                cat == self@,
                sel == bs@.map_values(|b: StoredBook| b@),
                0 <= k <= bs@.len(),
                sel.len() == bs@.len(),
                rows_view(rows@) =~= rows_for_books(cat, sel.take(k as int)),
            decreases bs@.len() - k,
        {
            let ghost old_rows = rows_view(rows@);
            let mut block = self.emit_rows_for_book(&bs[k]);
            let ghost blockv = rows_view(block@);
            proof {
                assert(sel.take(k + 1).drop_last() =~= sel.take(k as int));
                assert(sel.take(k + 1).last() == sel[k as int]);
                assert(bs@[k as int]@ == sel[k as int]);
                assert(blockv == rows_for_book(cat, sel[k as int]));
            }
            rows.append(&mut block);
            proof {
                assert(rows_view(rows@) =~= old_rows + blockv);
            }
            k = k + 1;
        }
        proof {
            assert(sel.take(sel.len() as int) =~= sel);
        }
        rows
    }

    /// Fetch the books of an ordered id list: each book at the first
    /// occurrence of its id, in list order; unknown ids select nothing
    /// and duplicate ids nothing further.
    pub fn get_many_by_ids(&self, book_ids: Vec<u64>) -> (r: Result<Vec<Book>, RepositoryError>)
        requires
            self.wf(),
        ensures
            r matches Ok(books) && books_view(books@) == selected_books(
                self@,
                book_ids@,
            ).map_values(|b: StoredBookView| book_of(self@, b)),
    {
        let ghost cat = self@;
        let mut idxs: Vec<usize> = Vec::new();
        let mut i: usize = 0;
        while i < book_ids.len()
            invariant
                self.wf(),
                cat == self@,
                0 <= i <= book_ids@.len(),
                forall|k: int| 0 <= k < idxs@.len() ==> (#[trigger] idxs@[k]) < self.books@.len(),
                idxs@.map_values(|k: usize| cat.books[k as int]) =~= selected_books(
                    cat,
                    book_ids@.take(i as int),
                ),
            decreases book_ids@.len() - i,
        {
            let id = book_ids[i];
            proof {
                assert(book_ids@.take(i + 1).drop_last() =~= book_ids@.take(i as int));
                assert(book_ids@.take(i + 1).last() == book_ids@[i as int]);
            }
            if !contains_upto(&book_ids, i, id) {
                match self.find_book_index(id) {
                    Some(bi) => {
                        let ghost old_sel = idxs@.map_values(|k: usize| cat.books[k as int]);
                        idxs.push(bi);
                        proof {
                            assert(idxs@.map_values(|k: usize| cat.books[k as int]) =~= old_sel.push(
                                cat.books[bi as int],
                            ));
                            assert(book_with_id(cat.books, id) == Some(cat.books[bi as int]));
                        }
                    },
                    None => {},
                }
            }
            i = i + 1;
        }
        proof {
            assert(book_ids@.take(book_ids@.len() as int) =~= book_ids@);
        }
        let ghost sel = selected_books(cat, book_ids@);
        proof {
            lemma_selected_books(cat, book_ids@);
            lemma_rows_for_books(cat, sel);
        }
        let rows = self.collect_rows(&idxs);
        match into_books(rows) {
            Ok(books) => Ok(books),
            Err(e) => {
                proof {
                    assert(false);
                }
                Err(RepositoryError::Decode(e))
            },
        }
    }

    /// Add a book with its tags, in one transaction: upsert the tags
    /// (insert-or-ignore on the structural (kind, name) identity),
    /// insert the book's scalar row under the caller-supplied id, and
    /// insert one join row per distinct tag. Re-adding an existing id
    /// is a no-op reported as `Ok(false)`, never an error; running out
    /// of surrogate ids rolls everything back and surfaces as a
    /// storage error.
    #[verifier::loop_isolation(false)]
    pub fn add(&mut self, book: Book) -> (r: Result<bool, RepositoryError>)
        requires
            old(self).wf(),
        ensures
            final(self).wf(),
            match r {
                Ok(added) => {
                    if added {
                        &&& book_with_id(old(self)@.books, book.id) is None
                        &&& final(self)@ == spec_add(old(self)@, book@)
                    } else {
                        &&& book_with_id(old(self)@.books, book.id) is Some
                        &&& final(self)@ == old(self)@
                    }
                },
                Err(e) => {
                    &&& book_with_id(old(self)@.books, book.id) is None
                    &&& spec_upsert_tags(old(self)@, book@.tags).0.next_tag_id > u64::MAX
                    &&& final(self)@ == old(self)@
                    &&& e matches RepositoryError::Storage(_)
                },
            },
            r matches Ok(true) <==> (book_with_id(old(self)@.books, book.id) is None
                && spec_upsert_tags(old(self)@, book@.tags).0.next_tag_id <= u64::MAX),
    {
        let ghost cat0 = self@;
        // The primary-key conflict, converted to a boolean, not an error.
        match self.find_book_index(book.id) {
            Some(_) => {
                return Ok(false);
            },
            None => {},
        }
        proof {
            lemma_book_with_id_none(cat0.books, book.id);
        }
        let ghost bookv = book@;
        let Book { id, title, page, language, kind, tags, created_at } = book;
        let ghost tsv = tags_view(tags@);
        proof {
            assert(tsv == bookv.tags);
            assert forall|k: int| 0 <= k < tsv.len() implies is_tag_kind(
                (#[trigger] tsv[k]).0,
            ) by {
                lemma_tag_kind_valid(tags@[k]);
                assert(tsv[k] == tags@[k]@);
            }
            lemma_upsert_tags_wf(cat0, tsv);
            assert(tsv.take(0) =~= Seq::<(Seq<char>, Seq<char>)>::empty());
            assert(cat0.tags + pending_view(Seq::<StoredTag>::empty()) =~= cat0.tags);
        }
        // Plan the tag upsert without touching the store, so that a
        // failure rolls back to the untouched state.
        let mut pending: Vec<StoredTag> = Vec::new();
        let mut tag_ids: Vec<u64> = Vec::new();
        let mut next: u64 = self.next_tag_id;
        let mut i: usize = 0;
        while i < tags.len()
            invariant
                self.wf(),
                cat0 == self@,
                0 <= i <= tags@.len(),
                tsv == tags_view(tags@),
                tsv == bookv.tags,
                tsv.len() == tags@.len(),
                spec_upsert_tags(cat0, tsv.take(i as int)) == (
                    CatalogView {
                        tags: cat0.tags + pending_view(pending@),
                        next_tag_id: next as int,
                        ..cat0
                    },
                    tag_ids@,
                ),
            decreases tags@.len() - i,
        {
            let t = &tags[i];
            let ghost cur = spec_upsert_tags(cat0, tsv.take(i as int)).0;
            proof {
                assert(tsv.take(i + 1).drop_last() =~= tsv.take(i as int));
                assert(tsv.take(i + 1).last() == tsv[i as int]);
                assert(tsv[i as int] == tags@[i as int]@);
                lemma_tag_concat(cat0.tags, pending_view(pending@), t@);
            }
            if !tag_in_prefix(&tags, i, t) {
                let found = match find_tag_in(&self.tags, t) {
                    Some(tid) => Some(tid),
                    None => find_tag_in(&pending, t),
                };
                proof {
                    assert(self.tags@.map_values(|x: StoredTag| x@) == cat0.tags);
                }
                match found {
                    Some(tid) => {
                        tag_ids.push(tid);
                        proof {
                            assert(tag_pair_in(cur.tags, t@));
                            assert(tid == tag_id_of(cur.tags, t@));
                        }
                    },
                    None => {
                        proof {
                            assert(!tag_pair_in(cur.tags, t@));
                        }
                        if next == u64::MAX {
                            proof {
                                assert(spec_upsert_tags(cat0, tsv.take(i + 1)).0.next_tag_id
                                    == u64::MAX + 1);
                                lemma_upsert_next_monotonic(cat0, tsv, i + 1);
                                assert(tsv.take(tsv.len() as int) =~= tsv);
                            }
                            return Err(
                                RepositoryError::Storage("tag id space exhausted".to_owned()),
                            );
                        }
                        let ghost old_pending = pending_view(pending@);
                        pending.push(StoredTag { id: next, tag: clone_tag(t) });
                        tag_ids.push(next);
                        proof {
                            assert(pending_view(pending@) =~= old_pending.push(
                                StoredTagView { id: next, kind: t@.0, name: t@.1 },
                            ));
                            assert(cat0.tags + pending_view(pending@) =~= (cat0.tags
                                + old_pending).push(
                                StoredTagView { id: next, kind: t@.0, name: t@.1 },
                            ));
                        }
                        next = next + 1;
                    },
                }
            } else {
                proof {
                    assert(tsv.take(i as int).contains(t@));
                }
            }
            i = i + 1;
        }
        proof {
            assert(tsv.take(tsv.len() as int) =~= tsv);
        }
        let ghost c1 = spec_upsert_tags(cat0, tsv).0;
        let ghost ids = spec_upsert_tags(cat0, tsv).1;
        // The join rows, one per distinct tag, in first-occurrence order.
        let mut new_refs: Vec<JoinRow> = Vec::new();
        let mut k: usize = 0;
        while k < tag_ids.len()
            invariant
                0 <= k <= tag_ids@.len(),
                new_refs@ =~= tag_ids@.take(k as int).map_values(
                    |tid: u64| JoinRow { book_id: id, tag_id: tid },
                ),
            decreases tag_ids@.len() - k,
        {
            let ghost old_refs = new_refs@;
            new_refs.push(JoinRow { book_id: id, tag_id: tag_ids[k] });
            proof {
                assert(new_refs@ =~= old_refs.push(
                    JoinRow { book_id: id, tag_id: tag_ids@[k as int] },
                ));
                assert(tag_ids@.take(k + 1).drop_last() =~= tag_ids@.take(k as int));
                assert(tag_ids@.take(k + 1).map_values(
                    |tid: u64| JoinRow { book_id: id, tag_id: tid },
                ) =~= tag_ids@.take(k as int).map_values(
                    |tid: u64| JoinRow { book_id: id, tag_id: tid },
                ).push(JoinRow { book_id: id, tag_id: tag_ids@[k as int] }));
            }
            k = k + 1;
        }
        proof {
            assert(tag_ids@.take(tag_ids@.len() as int) =~= tag_ids@);
        }
        // Commit: the upserted tags, the book row, the join rows.
        let ghost pendv = pending_view(pending@);
        let ghost nrefsv = new_refs@;
        proof {
            assert(c1.tags == cat0.tags + pendv);
        }
        self.tags.append(&mut pending);
        self.next_tag_id = next;
        let stored = StoredBook { id, title, page, language, kind, created_at };
        proof {
            assert(stored@ == stored_of(bookv));
        }
        self.books.push(stored);
        self.refs.append(&mut new_refs);
        proof {
            assert(self@.tags =~= cat0.tags + pendv);
            assert(self@.tags == c1.tags);
            assert(self@.next_tag_id == c1.next_tag_id);
            assert(self@.books =~= cat0.books.push(stored_of(bookv)));
            assert(nrefsv =~= ids.map_values(
                |tid: u64| JoinRow { book_id: bookv.id, tag_id: tid },
            ));
            assert(self@.refs =~= c1.refs + ids.map_values(
                |tid: u64| JoinRow { book_id: bookv.id, tag_id: tid },
            ));
            assert(self@ == spec_add(cat0, bookv));
            // Well-formedness of the committed store.
            assert(c1.next_tag_id <= u64::MAX);
            assert(catalog_wf(c1));
            let cat2 = self@;
            assert forall|x: int, y: int|
                0 <= x < y < cat2.books.len() implies (#[trigger] cat2.books[x]).id != (
            #[trigger] cat2.books[y]).id by {
                if y == cat2.books.len() - 1 {
                    assert(cat2.books[x] == cat0.books[x]);
                    assert(cat0.books[x].id != bookv.id);
                } else {
                    assert(cat2.books[x] == c1.books[x] && cat2.books[y] == c1.books[y]);
                }
            }
            assert forall|x: int|
                0 <= x < cat2.refs.len() implies has_tag_id(
                cat2.tags,
                (#[trigger] cat2.refs[x]).tag_id,
            ) by {
                if x < c1.refs.len() {
                    assert(cat2.refs[x] == c1.refs[x]);
                    assert(has_tag_id(c1.tags, c1.refs[x].tag_id));
                } else {
                    let w = x - c1.refs.len();
                    assert(cat2.refs[x] == ids.map_values(
                        |tid: u64| JoinRow { book_id: bookv.id, tag_id: tid },
                    )[w]);
                    assert(cat2.refs[x].tag_id == ids[w]);
                    let j = choose|j: int|
                        0 <= j < c1.tags.len() && (#[trigger] c1.tags[j]).id == ids[w];
                    assert(cat2.tags[j].id == ids[w]);
                }
            }
            assert forall|x: int|
                0 <= x < cat2.refs.len() implies has_book_id(
                cat2.books,
                (#[trigger] cat2.refs[x]).book_id,
            ) by {
                if x < c1.refs.len() {
                    assert(cat2.refs[x] == c1.refs[x]);
                    assert(has_book_id(c1.books, c1.refs[x].book_id));
                    lemma_has_book_id_push(c1.books, stored_of(bookv), c1.refs[x].book_id);
                } else {
                    let w = x - c1.refs.len();
                    assert(cat2.refs[x] == ids.map_values(
                        |tid: u64| JoinRow { book_id: bookv.id, tag_id: tid },
                    )[w]);
                    assert(cat2.refs[x].book_id == bookv.id);
                    assert(cat2.books[cat2.books.len() - 1].id == bookv.id);
                }
            }
            assert(catalog_wf(cat2));
        }
        Ok(true)
    }

    /// Group books under each of the given tags. Declared by the
    /// repository contract; intentionally not implemented, surfaced as
    /// a distinct error rather than an empty result.
    pub fn get_many_by_tags(&self, book_tags: Vec<BookTag>) -> (r: Result<
        Vec<BookGroupByTag>,
        RepositoryError,
    >)
        ensures
            r matches Err(RepositoryError::NotImplemented),
    {
        let _ = book_tags;
        Err(RepositoryError::NotImplemented)
    }

    /// List the books carrying one tag. Declared by the repository
    /// contract; intentionally not implemented, surfaced as a distinct
    /// error rather than an empty result.
    pub fn get_many_by_tag(&self, book_tag: BookTag) -> (r: Result<Vec<Book>, RepositoryError>)
        ensures
            r matches Err(RepositoryError::NotImplemented),
    {
        let _ = book_tag;
        Err(RepositoryError::NotImplemented)
    }

    /// Fetch one book by id, with its full tag list; absent ids are an
    /// absent value, never an error.
    #[verifier::rlimit(50)]
    pub fn get_one(&self, book_id: u64) -> (r: Result<Option<Book>, RepositoryError>)
        requires
            self.wf(),
        ensures
            match book_with_id(self@.books, book_id) {
                Some(b) => r matches Ok(Some(found)) && found@ == book_of(self@, b),
                None => r matches Ok(None),
            },
    {
        let ghost cat = self@;
        let idx = match self.find_book_index(book_id) {
            Some(i) => i,
            None => {
                return Ok(None);
            },
        };
        let rows = self.emit_rows_for_book(&self.books[idx]);
        let ghost bv = self.books@[idx as int]@;
        let ghost bs = seq![bv];
        proof {
            assert(cat.books[idx as int] == bv);
            assert(ids_distinct(bs));
            lemma_rows_for_books(cat, bs);
            assert(bs.drop_last() =~= Seq::<StoredBookView>::empty());
            assert(rows_for_books(cat, bs.drop_last()).len() == 0);
            assert(bs.last() == bv);
            assert(rows_for_books(cat, bs) =~= rows_for_book(cat, bv));
            assert(rows_view(rows@) == rows_for_books(cat, bs));
            assert(bs.map_values(|b: StoredBookView| book_of(cat, b)) =~= seq![book_of(cat, bv)]);
            assert(spec_aggregate(rows_view(rows@)) =~= seq![book_of(cat, bv)]);
        }
        let mut books = match into_books(rows) {
            Ok(books) => books,
            Err(e) => {
                proof {
                    assert(false);
                }
                return Err(RepositoryError::Decode(e));
            },
        };
        proof {
            assert(books_view(books@).len() == 1);
            assert(books_view(books@)[0] == book_of(cat, bv));
            assert(books@[0]@ == book_of(cat, bv));
        }
        Ok(books.pop())
    }
}

} // verus!
