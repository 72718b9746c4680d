//! The query builder: parameterized SQL and positionally ordered bind
//! values for the four retrieval modes over the three-way LEFT JOIN.
//!
//! Pagination and sort apply to the book rows inside a subquery, so
//! the join cannot multiply rows counted against the page size; the
//! id-list mode ranks each row by a per-id descending comparison in
//! the exact order of the caller's list, so output order preserves the
//! first occurrence of each id.

use vstd::prelude::*;
use vstd::string::StringExecFns;

use crate::entity::{BookKind, BookSortBy, Sort};
use crate::sqltext::{placeholder, push_placeholder};

verus! {

/// One positional bind value.
#[derive(Debug, Clone)]
pub enum BindValue {
    U64(u64),
    Str(String),
}

pub enum BindValueView {
    U64(u64),
    Str(Seq<char>),
}

impl View for BindValue {
    type V = BindValueView;

    open spec fn view(&self) -> BindValueView {
        match self {
            BindValue::U64(v) => BindValueView::U64(*v),
            BindValue::Str(s) => BindValueView::Str(s@),
        }
    }
}

pub open spec fn bind_values_view(vs: Seq<BindValue>) -> Seq<BindValueView> {
    vs.map_values(|v: BindValue| v@)
}

/// The selection mode of a read.
#[derive(Debug)]
pub enum SelectBy {
    /// Bulk fetch by an ordered id list; output preserves the list's
    /// first-occurrence order.
    Ids(Vec<u64>),
    /// One book by id.
    Id(u64),
    /// A page: optional kind filter, page size, 1-indexed page number,
    /// sort order.
    Many(Option<BookKind>, usize, usize, BookSortBy),
}

/// The selected columns and the subquery opening, shared by all modes.
pub open spec fn select_head() -> Seq<char> {
    "SELECT \"books\".\"id\" AS \"A_id\", \"books\".\"title\" AS \"A_title\", \"books\".\"page\" AS \"A_page\", \"books\".\"language\" AS \"A_language\", \"books\".\"kind\" AS \"A_kind\", \"books\".\"created_at\" AS \"A_created_at\", \"book_tags\".\"id\" AS \"B_id\", \"book_tags\".\"kind\" AS \"B_kind\", \"book_tags\".\"name\" AS \"B_name\" FROM (SELECT * FROM \"books\" "@
}

/// The join onto the fixed page of books, shared by all modes.
pub open spec fn join_clause() -> Seq<char> {
    ") AS \"books\" LEFT JOIN \"books_tag_ref\" ON \"books_tag_ref\".\"book_id\" = \"books\".\"id\" LEFT JOIN \"book_tags\" ON \"book_tags\".\"id\" = \"books_tag_ref\".\"book_tag_id\""@
}

/// `$1,$2,...,$n`.
pub open spec fn in_list(n: nat) -> Seq<char>
    decreases n,
{
    if n == 0 {
        Seq::empty()
    } else if n == 1 {
        placeholder(1)
    } else {
        in_list((n - 1) as nat) + seq![','] + placeholder(n)
    }
}

/// One ranking term: matching the `k`-th id sorts first.
pub open spec fn rank_term(k: nat) -> Seq<char> {
    "\"books\".\"id\" = "@ + placeholder(k) + " DESC"@
}

/// The ranking terms for ids 1..=n, in list order.
pub open spec fn rank_list(n: nat) -> Seq<char>
    decreases n,
{
    if n == 0 {
        Seq::empty()
    } else if n == 1 {
        rank_term(1)
    } else {
        rank_list((n - 1) as nat) + seq![','] + rank_term(n)
    }
}

/// The full statement for the one-book mode.
pub open spec fn spec_sql_by_id() -> Seq<char> {
    select_head() + "WHERE \"books\".\"id\" = $1"@ + join_clause()
}

/// The full statement for the id-list mode over `n` ids.
pub open spec fn spec_sql_by_ids(n: nat) -> Seq<char> {
    select_head() + "WHERE \"books\".\"id\" IN ("@ + in_list(n) + ")"@ + join_clause()
        + " ORDER BY "@ + rank_list(n)
}

/// The ORDER BY term of a listing.
pub open spec fn sort_term(sort_by: BookSortBy) -> Seq<char> {
    match sort_by {
        BookSortBy::Id(Sort::Desc) => "\"books\".\"id\" DESC"@,
        BookSortBy::Id(Sort::Asc) => "\"books\".\"id\" ASC"@,
        BookSortBy::Random => "RANDOM()"@,
    }
}

/// The full statement for the listing mode.
pub open spec fn spec_sql_many(has_kind: bool, sort_by: BookSortBy) -> Seq<char> {
    select_head() + (if has_kind {
        "WHERE \"books\".\"kind\" = $3 "@
    } else {
        Seq::<char>::empty()
    }) + "ORDER BY "@ + sort_term(sort_by) + " OFFSET $1 LIMIT $2"@ + join_clause()
}

/// The ordered bind values for the listing mode.
pub open spec fn spec_many_values(
    kind: Option<BookKind>,
    per_page: usize,
    page: usize,
) -> Seq<BindValueView> {
    let base = seq![
        BindValueView::U64((per_page * (page - 1)) as u64),
        BindValueView::U64(per_page as u64),
    ];
    match kind {
        Some(k) => base.push(BindValueView::Str(k.spec_as_str())),
        None => base,
    }
}

/// Build the SQL text and its positionally ordered bind values for one
/// selection mode. Placeholder numbers match the value positions
/// exactly: no gaps, no reuse across clauses.
pub fn select_books_sql(select_by: SelectBy) -> (r: (String, Vec<BindValue>))
    requires
        select_by matches SelectBy::Many(_, per_page, page, _) ==> page >= 1 && per_page * page
            <= usize::MAX && per_page * page <= u64::MAX,
    ensures
        match select_by {
            SelectBy::Id(id) => r.0@ == spec_sql_by_id() && bind_values_view(r.1@) == seq![
                BindValueView::U64(id),
            ],
            SelectBy::Ids(ids) => ids@.len() <= u64::MAX ==> r.0@ == spec_sql_by_ids(ids@.len())
                && bind_values_view(r.1@) == ids@.map_values(|x: u64| BindValueView::U64(x)),
            SelectBy::Many(kind, per_page, page, sort_by) => r.0@ == spec_sql_many(
                kind is Some,
                sort_by,
            ) && bind_values_view(r.1@) == spec_many_values(kind, per_page, page),
        },
{
    let mut sql = String::new();
    sql.append(
        "SELECT \"books\".\"id\" AS \"A_id\", \"books\".\"title\" AS \"A_title\", \"books\".\"page\" AS \"A_page\", \"books\".\"language\" AS \"A_language\", \"books\".\"kind\" AS \"A_kind\", \"books\".\"created_at\" AS \"A_created_at\", \"book_tags\".\"id\" AS \"B_id\", \"book_tags\".\"kind\" AS \"B_kind\", \"book_tags\".\"name\" AS \"B_name\" FROM (SELECT * FROM \"books\" ",
    );
    match select_by {
        SelectBy::Id(id) => {
            sql.append("WHERE \"books\".\"id\" = $1");
            sql.append(
                ") AS \"books\" LEFT JOIN \"books_tag_ref\" ON \"books_tag_ref\".\"book_id\" = \"books\".\"id\" LEFT JOIN \"book_tags\" ON \"book_tags\".\"id\" = \"books_tag_ref\".\"book_tag_id\"",
            );
            let mut values: Vec<BindValue> = Vec::new();
            values.push(BindValue::U64(id));
            proof {
                assert(sql@ =~= spec_sql_by_id());
                assert(bind_values_view(values@) =~= seq![BindValueView::U64(id)]);
            }
            (sql, values)
        },
        SelectBy::Ids(ids) => {
            sql.append("WHERE \"books\".\"id\" IN (");
            let ghost head = sql@;
            let n = ids.len();
            let mut values: Vec<BindValue> = Vec::new();
            let mut i: usize = 0;
            while i < ids.len()
                invariant
                    0 <= i <= ids@.len(),
                    ids@.len() == n,
                    sql@ == head + in_list(i as nat),
                    bind_values_view(values@) =~= ids@.take(i as int).map_values(
                        |x: u64| BindValueView::U64(x),
                    ),
                decreases ids@.len() - i,
            {
                if i > 0 {
                    sql.append(",");
                    proof {
                        reveal_strlit(",");
                        assert(","@ =~= seq![',']);
                    }
                }
                push_placeholder(&mut sql, (i as u64) + 1);
                let ghost old_vals = bind_values_view(values@);
                values.push(BindValue::U64(ids[i]));
                proof {
                    assert(sql@ =~= head + in_list((i + 1) as nat));
                    assert(bind_values_view(values@) =~= old_vals.push(
                        BindValueView::U64(ids@[i as int]),
                    ));
                    assert(ids@.take(i + 1) =~= ids@.take(i as int).push(ids@[i as int]));
                    assert(ids@.take(i + 1).map_values(|x: u64| BindValueView::U64(x))
                        =~= ids@.take(i as int).map_values(|x: u64| BindValueView::U64(x)).push(
                        BindValueView::U64(ids@[i as int]),
                    ));
                }
                i = i + 1;
            }
            sql.append(")");
            sql.append(
                ") AS \"books\" LEFT JOIN \"books_tag_ref\" ON \"books_tag_ref\".\"book_id\" = \"books\".\"id\" LEFT JOIN \"book_tags\" ON \"book_tags\".\"id\" = \"books_tag_ref\".\"book_tag_id\"",
            );
            sql.append(" ORDER BY ");
            let ghost mid = sql@;
            let mut k: usize = 0;
            while k < ids.len()
                invariant
                    0 <= k <= ids@.len(),
                    ids@.len() == n,
                    sql@ == mid + rank_list(k as nat),
                decreases ids@.len() - k,
            {
                if k > 0 {
                    sql.append(",");
                    proof {
                        reveal_strlit(",");
                        assert(","@ =~= seq![',']);
                    }
                }
                sql.append("\"books\".\"id\" = ");
                push_placeholder(&mut sql, (k as u64) + 1);
                sql.append(" DESC");
                proof {
                    assert(sql@ =~= mid + rank_list((k + 1) as nat));
                }
                k = k + 1;
            }
            proof {
                assert(ids@.take(ids@.len() as int) =~= ids@);
                assert(sql@ =~= spec_sql_by_ids(ids@.len()));
            }
            (sql, values)
        },
        SelectBy::Many(kind, per_page, page, sort_by) => {
            let mut values: Vec<BindValue> = Vec::new();
            proof {
                assert(per_page * (page - 1) <= per_page * page) by (nonlinear_arith)
                    requires
                        page >= 1,
                        per_page >= 0,
                ;
            }
            let offset = per_page * (page - 1);
            values.push(BindValue::U64(offset as u64));
            values.push(BindValue::U64(per_page as u64));
            match &kind {
                Some(k) => {
                    sql.append("WHERE \"books\".\"kind\" = $3 ");
                    values.push(BindValue::Str(k.as_str().to_owned()));
                },
                None => {},
            }
            sql.append("ORDER BY ");
            match sort_by {
                BookSortBy::Id(Sort::Desc) => sql.append("\"books\".\"id\" DESC"),
                BookSortBy::Id(Sort::Asc) => sql.append("\"books\".\"id\" ASC"),
                BookSortBy::Random => sql.append("RANDOM()"),
            }
            sql.append(" OFFSET $1 LIMIT $2");
            sql.append(
                ") AS \"books\" LEFT JOIN \"books_tag_ref\" ON \"books_tag_ref\".\"book_id\" = \"books\".\"id\" LEFT JOIN \"book_tags\" ON \"book_tags\".\"id\" = \"books_tag_ref\".\"book_tag_id\"",
            );
            proof {
                assert(sql@ =~= spec_sql_many(kind is Some, sort_by));
                assert(bind_values_view(values@) =~= spec_many_values(kind, per_page, page));
            }
            (sql, values)
        },
    }
}

} // verus!
