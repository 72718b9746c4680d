use book_catalog::batch::{
    chunk_tuples, insert_book_tags_sql, insert_tag_refs_sql, ref_bind_values, tag_bind_values,
    values_clause,
};
use book_catalog::entity::{BookKind, BookSortBy, BookTag, Sort};
use book_catalog::query::{select_books_sql, BindValue, SelectBy};

const HEAD: &str = "SELECT \"books\".\"id\" AS \"A_id\", \"books\".\"title\" AS \"A_title\", \"books\".\"page\" AS \"A_page\", \"books\".\"language\" AS \"A_language\", \"books\".\"kind\" AS \"A_kind\", \"books\".\"created_at\" AS \"A_created_at\", \"book_tags\".\"id\" AS \"B_id\", \"book_tags\".\"kind\" AS \"B_kind\", \"book_tags\".\"name\" AS \"B_name\" FROM (SELECT * FROM \"books\" ";

const JOIN: &str = ") AS \"books\" LEFT JOIN \"books_tag_ref\" ON \"books_tag_ref\".\"book_id\" = \"books\".\"id\" LEFT JOIN \"book_tags\" ON \"book_tags\".\"id\" = \"books_tag_ref\".\"book_tag_id\"";

#[test]
fn sql_for_one_id() {
    let (sql, values) = select_books_sql(SelectBy::Id(7));
    assert_eq!(sql, format!("{HEAD}WHERE \"books\".\"id\" = $1{JOIN}"));
    assert_eq!(values.len(), 1);
    assert!(matches!(values[0], BindValue::U64(7)));
}

#[test]
fn sql_for_id_list_ranks_in_list_order() {
    let (sql, values) = select_books_sql(SelectBy::Ids(vec![10, 20, 30]));
    let expected = format!(
        "{HEAD}WHERE \"books\".\"id\" IN ($1,$2,$3){JOIN} ORDER BY \"books\".\"id\" = $1 DESC,\"books\".\"id\" = $2 DESC,\"books\".\"id\" = $3 DESC"
    );
    assert_eq!(sql, expected);
    let got: Vec<u64> = values
        .iter()
        .map(|v| match v {
            BindValue::U64(x) => *x,
            BindValue::Str(_) => panic!("unexpected string bind"),
        })
        .collect();
    assert_eq!(got, vec![10, 20, 30]);
}

#[test]
fn sql_for_listing_without_kind() {
    let (sql, values) = select_books_sql(SelectBy::Many(None, 25, 3, BookSortBy::Id(Sort::Desc)));
    let expected = format!("{HEAD}ORDER BY \"books\".\"id\" DESC OFFSET $1 LIMIT $2{JOIN}");
    assert_eq!(sql, expected);
    assert_eq!(values.len(), 2);
    // offset = per_page * (page - 1)
    assert!(matches!(values[0], BindValue::U64(50)));
    assert!(matches!(values[1], BindValue::U64(25)));
}

#[test]
fn sql_for_listing_with_kind_and_random() {
    let (sql, values) = select_books_sql(
        SelectBy::Many(Some(BookKind::ArtistCg), 10, 1, BookSortBy::Random),
    );
    let expected = format!(
        "{HEAD}WHERE \"books\".\"kind\" = $3 ORDER BY RANDOM() OFFSET $1 LIMIT $2{JOIN}"
    );
    assert_eq!(sql, expected);
    assert_eq!(values.len(), 3);
    assert!(matches!(values[0], BindValue::U64(0)));
    assert!(matches!(values[1], BindValue::U64(10)));
    match &values[2] {
        BindValue::Str(s) => assert_eq!(s, "artist_cg"),
        BindValue::U64(_) => panic!("expected the kind string"),
    }
}

#[test]
fn sql_for_listing_ascending() {
    let (sql, _) = select_books_sql(SelectBy::Many(None, 5, 1, BookSortBy::Id(Sort::Asc)));
    assert!(sql.contains("ORDER BY \"books\".\"id\" ASC"));
}

#[test]
fn chunks_respect_the_parameter_ceiling() {
    let pairs: Vec<(u64, u64)> = (1..=5).map(|i| (i, i + 100)).collect();
    // Five pairs at arity 2 need ten parameters; the ceiling is four.
    let chunks = chunk_tuples(pairs.clone(), 4, 2);
    assert!(chunks.len() > 1);
    assert_eq!(chunks.iter().map(|c| c.len()).collect::<Vec<_>>(), vec![2, 2, 1]);
    for c in &chunks {
        assert!(c.len() * 2 <= 4);
    }
    let flattened: Vec<(u64, u64)> = chunks.into_iter().flatten().collect();
    assert_eq!(flattened, pairs);
}

#[test]
fn one_chunk_when_under_the_ceiling() {
    let pairs: Vec<(u64, u64)> = vec![(1, 2), (3, 4)];
    let chunks = chunk_tuples(pairs.clone(), 100, 2);
    assert_eq!(chunks.len(), 1);
    assert_eq!(chunks[0], pairs);
}

#[test]
fn empty_input_makes_no_chunks() {
    let chunks = chunk_tuples(Vec::<(u64, u64)>::new(), 4, 2);
    assert!(chunks.is_empty());
}

#[test]
fn values_clause_renumbers_from_one() {
    assert_eq!(values_clause(0, 2), "");
    assert_eq!(values_clause(1, 2), "($1, $2)");
    assert_eq!(values_clause(2, 2), "($1, $2),($3, $4)");
    assert_eq!(values_clause(2, 3), "($1, $2, $3),($4, $5, $6)");
    // Placeholders past nine render with both digits.
    assert_eq!(
        values_clause(5, 2),
        "($1, $2),($3, $4),($5, $6),($7, $8),($9, $10)"
    );
    // Each chunk numbers afresh: the second chunk's clause starts at $1
    // again, never at the previous chunk's end.
    assert_eq!(values_clause(1, 2), "($1, $2)");
}

#[test]
fn upsert_statement_text() {
    assert_eq!(
        insert_book_tags_sql(2),
        "INSERT INTO book_tags(kind, name) VALUES ($1, $2),($3, $4) ON CONFLICT (kind, name) DO NOTHING RETURNING id"
    );
}

#[test]
fn join_insert_statement_text() {
    assert_eq!(
        insert_tag_refs_sql(1),
        "INSERT INTO books_tag_ref(book_id, book_tag_id) VALUES ($1, $2)"
    );
}

#[test]
fn tag_bind_values_flatten_kind_then_name() {
    let tags = vec![BookTag::Artist("X".to_owned()), BookTag::Female("Y".to_owned())];
    let values = tag_bind_values(&tags);
    let got: Vec<String> = values
        .iter()
        .map(|v| match v {
            BindValue::Str(s) => s.clone(),
            BindValue::U64(_) => panic!("expected strings"),
        })
        .collect();
    assert_eq!(got, vec!["artist", "X", "female", "Y"]);
}

#[test]
fn ref_bind_values_flatten_in_pair_order() {
    let refs = vec![(1u64, 10u64), (2, 20)];
    let values = ref_bind_values(&refs);
    let got: Vec<u64> = values
        .iter()
        .map(|v| match v {
            BindValue::U64(x) => *x,
            BindValue::Str(_) => panic!("expected numbers"),
        })
        .collect();
    assert_eq!(got, vec![1, 10, 2, 20]);
}
