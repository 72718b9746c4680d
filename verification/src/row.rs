//! The row aggregator: folds the flat row stream of the three-way
//! LEFT JOIN, grouped contiguously by book, back into an ordered
//! sequence of books with nested tag lists.

use vstd::prelude::*;

use crate::entity::{
    is_tag_kind, spec_book_kind_of, Book, BookTag, BookView, book_kind_from_str,
    book_tag_from_strs, tags_view,
};

verus! {

/// The tag columns of one join row: surrogate id, kind, name.
#[derive(Debug, Clone)]
pub struct TagRow {
    pub id: u64,
    pub kind: String,
    pub name: String,
}

pub struct TagRowView {
    pub id: u64,
    pub kind: Seq<char>,
    pub name: Seq<char>,
}

impl View for TagRow {
    type V = TagRowView;

    open spec fn view(&self) -> TagRowView {
        TagRowView { id: self.id, kind: self.kind@, name: self.name@ }
    }
}

/// One flat result row: a book's scalar columns plus at most one tag's
/// columns. A `None` tag means the book has no tags and is only valid
/// as that book's single row.
#[derive(Debug, Clone)]
pub struct FlatRow {
    pub book_id: u64,
    pub title: String,
    pub page: usize,
    pub language: String,
    pub kind: String,
    pub created_at: i64,
    pub tag: Option<TagRow>,
}

pub struct FlatRowView {
    pub book_id: u64,
    pub title: Seq<char>,
    pub page: usize,
    pub language: Seq<char>,
    pub kind: Seq<char>,
    pub created_at: i64,
    pub tag: Option<TagRowView>,
}

impl View for FlatRow {
    type V = FlatRowView;

    open spec fn view(&self) -> FlatRowView {
        FlatRowView {
            book_id: self.book_id,
            title: self.title@,
            page: self.page,
            language: self.language@,
            kind: self.kind@,
            created_at: self.created_at,
            tag: match self.tag {
                Some(t) => Some(t@),
                None => None,
            },
        }
    }
}

pub open spec fn rows_view(rs: Seq<FlatRow>) -> Seq<FlatRowView> {
    rs.map_values(|r: FlatRow| r@)
}

pub open spec fn books_view(bs: Seq<Book>) -> Seq<BookView> {
    bs.map_values(|b: Book| b@)
}

/// A stored value in a row did not decode to the closed enums.
#[derive(Debug, Clone)]
pub enum DecodeError {
    UnknownBookKind(String),
    UnknownTagKind(String),
}

pub enum DecodeErrorView {
    UnknownBookKind(Seq<char>),
    UnknownTagKind(Seq<char>),
}

impl View for DecodeError {
    type V = DecodeErrorView;

    open spec fn view(&self) -> DecodeErrorView {
        match self {
            DecodeError::UnknownBookKind(s) => DecodeErrorView::UnknownBookKind(s@),
            DecodeError::UnknownTagKind(s) => DecodeErrorView::UnknownTagKind(s@),
        }
    }
}

/// Whether one row's stored strings decode.
pub open spec fn row_error(r: FlatRowView) -> Option<DecodeErrorView> {
    if spec_book_kind_of(r.kind) is None {
        Some(DecodeErrorView::UnknownBookKind(r.kind))
    } else if r.tag is Some && !is_tag_kind(r.tag->0.kind) {
        Some(DecodeErrorView::UnknownTagKind(r.tag->0.kind))
    } else {
        None
    }
}

pub open spec fn rows_decode(rs: Seq<FlatRowView>) -> bool {
    forall|i: int| 0 <= i < rs.len() ==> #[trigger] row_error(rs[i]) is None
}

/// The grouping precondition the query builder guarantees: a row with
/// the same book id as its predecessor always carries a tag (a no-tag
/// book has exactly one row).
pub open spec fn rows_wf(rs: Seq<FlatRowView>) -> bool {
    forall|i: int|
        1 <= i < rs.len() && (#[trigger] rs[i]).book_id == rs[i - 1].book_id ==> rs[i].tag is Some
}

/// The group a row opens: the book's scalars and the row's tag, if any.
pub open spec fn book_from_row(r: FlatRowView) -> BookView {
    BookView {
        id: r.book_id,
        title: r.title,
        page: r.page,
        language: r.language,
        kind: spec_book_kind_of(r.kind)->0,
        tags: match r.tag {
            Some(t) => seq![(t.kind, t.name)],
            None => Seq::empty(),
        },
        created_at: r.created_at,
    }
}

pub open spec fn push_tag(b: BookView, t: TagRowView) -> BookView {
    BookView { tags: b.tags.push((t.kind, t.name)), ..b }
}

/// The fold over a row sequence: each row either extends the open
/// group (same book id as the group, which is the previous row's id)
/// or closes it and opens a new one.
pub open spec fn spec_aggregate(rs: Seq<FlatRowView>) -> Seq<BookView>
    decreases rs.len(),
{
    if rs.len() == 0 {
        Seq::empty()
    } else {
        let prev = spec_aggregate(rs.drop_last());
        let r = rs.last();
        if prev.len() > 0 && prev.last().id == r.book_id {
            match r.tag {
                Some(t) => prev.update(prev.len() - 1, push_tag(prev.last(), t)),
                None => prev,
            }
        } else {
            prev.push(book_from_row(r))
        }
    }
}

/// One book's rows: nonempty, all with that book's id, and carrying a
/// `None` tag only as the single row of an untagged book.
pub open spec fn is_block(b: Seq<FlatRowView>) -> bool {
    &&& b.len() > 0
    &&& forall|i: int| 0 <= i < b.len() ==> (#[trigger] b[i]).book_id == b[0].book_id
    &&& b.len() > 1 ==> forall|i: int| 0 <= i < b.len() ==> (#[trigger] b[i]).tag is Some
}

/// The tag list a block carries.
pub open spec fn tags_of_block(b: Seq<FlatRowView>) -> Seq<(Seq<char>, Seq<char>)> {
    if b[0].tag is None {
        Seq::empty()
    } else {
        b.map_values(|r: FlatRowView| (r.tag->0.kind, r.tag->0.name))
    }
}

/// The book one block folds to: the first row's scalars and the
/// block's tag list.
pub open spec fn book_of_block(b: Seq<FlatRowView>) -> BookView {
    BookView {
        id: b[0].book_id,
        title: b[0].title,
        page: b[0].page,
        language: b[0].language,
        kind: spec_book_kind_of(b[0].kind)->0,
        tags: tags_of_block(b),
        created_at: b[0].created_at,
    }
}

/// The fold never loses the tail: the last group's id is the last
/// row's book id.
pub proof fn lemma_aggregate_last_id(rs: Seq<FlatRowView>)
    requires
        rs.len() > 0,
    ensures
        spec_aggregate(rs).len() > 0,
        spec_aggregate(rs).last().id == rs.last().book_id,
    decreases rs.len(),
{
    if rs.len() > 1 {
        lemma_aggregate_last_id(rs.drop_last());
    }
}

/// Appending one whole block to a row stream whose last row belongs to
/// a different book appends exactly that block's book to the fold.
pub proof fn lemma_aggregate_append_block(rs: Seq<FlatRowView>, b: Seq<FlatRowView>)
    requires
        is_block(b),
        rs.len() > 0 ==> rs.last().book_id != b[0].book_id,
    ensures
        spec_aggregate(rs + b) == spec_aggregate(rs).push(book_of_block(b)),
    decreases b.len(),
{
    if b.len() == 1 {
        assert((rs + b).drop_last() =~= rs);
        assert((rs + b).last() == b[0]);
        if rs.len() > 0 {
            lemma_aggregate_last_id(rs);
        }
        assert(book_from_row(b[0]) == book_of_block(b)) by {
            if b[0].tag is Some {
                assert(seq![(b[0].tag->0.kind, b[0].tag->0.name)] =~= tags_of_block(b));
            }
        }
        assert(spec_aggregate(rs + b) =~= spec_aggregate(rs).push(book_of_block(b)));
    } else {
        let b0 = b.drop_last();
        let r = b.last();
        assert(is_block(b0)) by {
            assert(forall|i: int| 0 <= i < b0.len() ==> b0[i] == b[i]);
        }
        lemma_aggregate_append_block(rs, b0);
        assert((rs + b).drop_last() =~= rs + b0);
        assert((rs + b).last() == r);
        let prev = spec_aggregate(rs + b0);
        assert(prev == spec_aggregate(rs).push(book_of_block(b0)));
        assert(prev.last() == book_of_block(b0));
        assert(prev.last().id == r.book_id);
        assert(r.tag is Some);
        let t = r.tag->0;
        assert(spec_aggregate(rs + b) == prev.update(prev.len() - 1, push_tag(prev.last(), t)));
        assert(push_tag(book_of_block(b0), t) == book_of_block(b)) by {
            assert(b0[0].tag is Some);
            assert(tags_of_block(b0).push((t.kind, t.name)) =~= tags_of_block(b)) by {
                assert(forall|i: int| 0 <= i < b0.len() ==> b0[i] == b[i]);
            }
        }
        assert(spec_aggregate(rs).push(book_of_block(b0)).update(
            spec_aggregate(rs).push(book_of_block(b0)).len() - 1,
            book_of_block(b),
        ) =~= spec_aggregate(rs).push(book_of_block(b)));
    }
}

/// Appending a block to a well-formed stream ending on another book
/// keeps it well-formed.
pub proof fn lemma_rows_wf_append_block(rs: Seq<FlatRowView>, b: Seq<FlatRowView>)
    requires
        rows_wf(rs),
        is_block(b),
        rs.len() > 0 ==> rs.last().book_id != b[0].book_id,
    ensures
        rows_wf(rs + b),
{
    let all = rs + b;
    assert forall|i: int|
        1 <= i < all.len() && (#[trigger] all[i]).book_id == all[i - 1].book_id implies all[i].tag
        is Some by {
        if i < rs.len() {
            assert(all[i] == rs[i] && all[i - 1] == rs[i - 1]);
        } else if i == rs.len() {
            assert(all[i] == b[0] && all[i - 1] == rs[i - 1]);
            assert(rs.last() == rs[i - 1]);
            assert(false);
        } else {
            assert(all[i] == b[i - rs.len()] && all[i - 1] == b[i - 1 - rs.len()]);
            assert(b.len() > 1);
        }
    }
}

/// Fold the flat row stream into books. Rows whose stored kind strings
/// do not decode surface the first offending value as a typed error.
pub fn into_books(rows: Vec<FlatRow>) -> (r: Result<Vec<Book>, DecodeError>)
    requires
        rows_wf(rows_view(rows@)),
    ensures
        match r {
            Ok(books) => rows_decode(rows_view(rows@)) && books_view(books@)
                == spec_aggregate(rows_view(rows@)),
            Err(e) => exists|i: int|
                0 <= i < rows@.len() && #[trigger] row_error(rows_view(rows@)[i]) == Some(e@)
                    && (forall|j: int| 0 <= j < i ==> #[trigger] row_error(rows_view(rows@)[j]) is None),
        },
{
    let ghost rsv = rows_view(rows@);
    let mut out: Vec<Book> = Vec::new();
    let mut cur: Option<Book> = None;
    let mut i: usize = 0;
    while i < rows.len()
        invariant
            rows_wf(rsv),
            rsv == rows_view(rows@),
            rsv.len() == rows@.len(),
            0 <= i <= rows@.len(),
            forall|j: int| 0 <= j < i ==> #[trigger] row_error(rsv[j]) is None,
            cur is None ==> i == 0 && out@.len() == 0,
            cur is Some ==> i >= 1 && cur->0@.id == rsv[i - 1].book_id,
            spec_aggregate(rsv.take(i as int)) == match cur {
                Some(g) => books_view(out@).push(g@),
                None => books_view(out@),
            },
        decreases rows@.len() - i,
    {
        let row = &rows[i];
        proof {
            assert(rsv[i as int] == row@);
        }
        let kind = match book_kind_from_str(row.kind.as_str()) {
            Some(k) => k,
            None => {
                return Err(DecodeError::UnknownBookKind(row.kind.clone()));
            },
        };
        let tag: Option<BookTag> = match &row.tag {
            Some(t) => match book_tag_from_strs(t.kind.as_str(), t.name.clone()) {
                Some(bt) => Some(bt),
                None => {
                    return Err(DecodeError::UnknownTagKind(t.kind.clone()));
                },
            },
            None => None,
        };
        proof {
            assert(row_error(rsv[i as int]) is None);
            assert(rsv.take(i + 1).drop_last() =~= rsv.take(i as int));
            assert(rsv.take(i + 1).last() == rsv[i as int]);
        }
        let ghost prev_agg = spec_aggregate(rsv.take(i as int));
        cur = match cur {
            None => {
                let g = open_group(row, kind, tag);
                proof {
                    assert(books_view(out@).push(g@) =~= prev_agg.push(book_from_row(rsv[i as int])));
                }
                Some(g)
            },
            Some(mut g) => {
                if g.id == row.book_id {
                    match tag {
                        Some(t) => {
                            let ghost old_g = g;
                            let ghost tv = row@.tag->0;
                            g.tags.push(t);
                            proof {
                                assert(tags_view(g.tags@) =~= tags_view(old_g.tags@).push(t@));
                                assert(t@ == (tv.kind, tv.name));
                                assert(g@ == push_tag(old_g@, tv));
                                assert(prev_agg.len() > 0 && prev_agg.last() == old_g@);
                                assert(books_view(out@).push(g@) =~= prev_agg.update(
                                    prev_agg.len() - 1,
                                    push_tag(prev_agg.last(), tv),
                                ));
                            }
                            Some(g)
                        },
                        None => {
                            proof {
                                assert(rsv[i as int].tag is Some);
                                assert(false);
                            }
                            Some(g)
                        },
                    }
                } else {
                    out.push(g);
                    let g2 = open_group(row, kind, tag);
                    proof {
                        assert(books_view(out@) =~= prev_agg);
                        assert(books_view(out@).push(g2@) =~= prev_agg.push(
                            book_from_row(rsv[i as int]),
                        ));
                    }
                    Some(g2)
                }
            },
        };
        i = i + 1;
    }
    proof {
        assert(rsv.take(rows@.len() as int) =~= rsv);
    }
    match cur {
        Some(g) => {
            out.push(g);
            proof {
                assert(rows_decode(rsv));
            }
            Ok(out)
        },
        None => {
            proof {
                assert(rows_decode(rsv));
            }
            Ok(out)
        },
    }
}

/// Open a new group from one row's decoded columns.
fn open_group(row: &FlatRow, kind: crate::entity::BookKind, tag: Option<BookTag>) -> (g: Book)
    requires
        spec_book_kind_of(row@.kind) == Some(kind),
        match row@.tag {
            Some(tv) => tag is Some && tag->0@ == (tv.kind, tv.name),
            None => tag is None,
        },
    ensures
        g@ == book_from_row(row@),
{
    let tags: Vec<BookTag> = match tag {
        Some(t) => {
            let mut v: Vec<BookTag> = Vec::new();
            v.push(t);
            v
        },
        None => Vec::new(),
    };
    let g = Book {
        id: row.book_id,
        title: row.title.clone(),
        page: row.page,
        language: row.language.clone(),
        kind,
        tags,
        created_at: row.created_at,
    };
    proof {
        assert(tags_view(g.tags@) =~= book_from_row(row@).tags);
        assert(g@ == book_from_row(row@));
    }
    g
}

} // verus!
