use book_catalog::entity::{
    book_kind_from_str, book_tag_from_strs, eq_tag, BookKind, BookTag,
};
use book_catalog::error::Error;
use book_catalog::model;
use book_catalog::msg::Msg;
use book_catalog::payload;
use book_catalog::row::{into_books, DecodeError, FlatRow, TagRow};
use book_catalog::usecase::{get_book, get_books, get_books_by_ids};

#[test]
fn book_kind_strings_round_trip() {
    for (kind, text) in [
        (BookKind::Manga, "manga"),
        (BookKind::Doujinshi, "doujinshi"),
        (BookKind::ArtistCg, "artist_cg"),
        (BookKind::GameCg, "game_cg"),
    ] {
        assert_eq!(kind.as_str(), text);
        assert!(matches!(book_kind_from_str(text), Some(k) if k == kind));
    }
    assert!(book_kind_from_str("comic").is_none());
}

#[test]
fn tag_kind_and_name() {
    let t = BookTag::Character("rem".to_owned());
    assert_eq!(t.kind(), "character");
    assert_eq!(t.name(), "rem");
    let decoded = book_tag_from_strs("character", "rem".to_owned()).unwrap();
    assert!(eq_tag(&t, &decoded));
    assert!(!eq_tag(&t, &BookTag::Misc("rem".to_owned())));
    assert!(!eq_tag(&t, &BookTag::Character("ram".to_owned())));
    assert!(book_tag_from_strs("colour", "x".to_owned()).is_none());
}

fn flat_row(book_id: u64, tag: Option<(i64, &str, &str)>) -> FlatRow {
    FlatRow {
        book_id,
        title: format!("book-{book_id}"),
        page: 3,
        language: "korean".to_owned(),
        kind: "manga".to_owned(),
        created_at: 0,
        tag: tag.map(|(id, kind, name)| TagRow {
            id: id as u64,
            kind: kind.to_owned(),
            name: name.to_owned(),
        }),
    }
}

#[test]
fn aggregator_groups_contiguous_rows() {
    let rows = vec![
        flat_row(1, Some((10, "artist", "X"))),
        flat_row(1, Some((11, "female", "Y"))),
        flat_row(2, None),
        flat_row(3, Some((10, "artist", "X"))),
    ];
    let books = into_books(rows).unwrap();
    assert_eq!(books.len(), 3);
    assert_eq!(books[0].id, 1);
    assert_eq!(books[0].tags.len(), 2);
    assert_eq!(books[0].tags[0].kind(), "artist");
    assert_eq!(books[0].tags[1].name(), "Y");
    assert_eq!(books[1].id, 2);
    assert!(books[1].tags.is_empty());
    assert_eq!(books[2].id, 3);
    assert_eq!(books[2].tags.len(), 1);
}

#[test]
fn aggregator_rejects_unknown_book_kind() {
    let mut row = flat_row(1, None);
    row.kind = "comic".to_owned();
    match into_books(vec![row]) {
        Err(DecodeError::UnknownBookKind(s)) => assert_eq!(s, "comic"),
        _ => panic!("expected an unknown book kind error"),
    }
}

#[test]
fn aggregator_rejects_unknown_tag_kind() {
    let mut row = flat_row(1, Some((10, "artist", "X")));
    if let Some(t) = &mut row.tag {
        t.kind = "colour".to_owned();
    }
    match into_books(vec![row]) {
        Err(DecodeError::UnknownTagKind(s)) => assert_eq!(s, "colour"),
        _ => panic!("expected an unknown tag kind error"),
    }
}

#[test]
fn aggregator_tolerates_duplicate_join_rows_by_double_counting() {
    let rows = vec![
        flat_row(1, Some((10, "artist", "X"))),
        flat_row(1, Some((10, "artist", "X"))),
    ];
    let books = into_books(rows).unwrap();
    assert_eq!(books.len(), 1);
    assert_eq!(books[0].tags.len(), 2);
}

#[test]
fn check_fills_defaults() {
    let p = get_books::Payload { kind: None, per_page: None, page: None, sort_by: None };
    let checked = p.check().unwrap();
    assert_eq!(checked.per_page, Some(25));
    assert_eq!(checked.page, Some(1));
    assert!(matches!(checked.sort_by, Some(payload::BookSortBy::IdDesc)));
}

#[test]
fn check_rejects_out_of_range_per_page() {
    let low = get_books::Payload { kind: None, per_page: Some(0), page: None, sort_by: None };
    assert!(matches!(
        low.check(),
        Err(Error::Payload(payload::Error::InvalidPerPage(0)))
    ));
    let high = get_books::Payload { kind: None, per_page: Some(101), page: Some(2), sort_by: None };
    assert!(matches!(
        high.check(),
        Err(Error::Payload(payload::Error::InvalidPerPage(101)))
    ));
}

#[test]
fn check_rejects_page_zero() {
    let p = get_books::Payload { kind: None, per_page: Some(10), page: Some(0), sort_by: None };
    assert!(matches!(
        p.check(),
        Err(Error::Payload(payload::Error::InvalidPage(0)))
    ));
}

#[test]
fn check_accepts_the_bounds() {
    let p = get_books::Payload {
        kind: Some(payload::BookKind::GameCg),
        per_page: Some(100),
        page: Some(1),
        sort_by: Some(payload::BookSortBy::IdAsc),
    };
    let checked = p.check().unwrap();
    assert_eq!(checked.per_page, Some(100));
    assert!(matches!(checked.kind, Some(payload::BookKind::GameCg)));
}

#[test]
fn check_caps_the_id_list_at_one_hundred() {
    let ok = get_books_by_ids::Payload { ids: (0..100).collect() };
    assert_eq!(ok.check().unwrap().ids.len(), 100);
    let over = get_books_by_ids::Payload { ids: (0..101).collect() };
    assert!(matches!(
        over.check(),
        Err(Error::Payload(payload::Error::Custom(m)))
            if m == "length of ids must be less than or equal 100"
    ));
}

#[test]
fn payload_kinds_convert_to_entities() {
    let k: BookKind = payload::BookKind::ArtistCg.into();
    assert!(matches!(k, BookKind::ArtistCg));
    let s: book_catalog::entity::BookSortBy = payload::BookSortBy::IdAsc.into();
    assert!(matches!(
        s,
        book_catalog::entity::BookSortBy::Id(book_catalog::entity::Sort::Asc)
    ));
}

#[test]
fn present_maps_absence_to_not_found() {
    assert!(matches!(
        get_book::present(None),
        Err(get_book::Error::NotFoundBook)
    ));
    let b = book_catalog::entity::Book {
        id: 9,
        title: "t".to_owned(),
        page: 1,
        language: "korean".to_owned(),
        kind: BookKind::GameCg,
        tags: vec![BookTag::Male("m".to_owned())],
        created_at: 5,
    };
    let m = get_book::present(Some(b)).unwrap();
    assert_eq!(m.id, 9);
    assert_eq!(m.kind, "game_cg");
    assert_eq!(m.tags, vec![("male".to_owned(), "m".to_owned())]);
}

#[test]
fn models_keep_listing_order() {
    let mk = |id: u64| book_catalog::entity::Book {
        id,
        title: format!("t{id}"),
        page: 0,
        language: "l".to_owned(),
        kind: BookKind::Manga,
        tags: vec![],
        created_at: 0,
    };
    let models = model::to_models(vec![mk(3), mk(1)]);
    assert_eq!(models.len(), 2);
    assert_eq!(models[0].id, 3);
    assert_eq!(models[1].id, 1);
    assert_eq!(models[0].title, "t3");
}

#[test]
fn msg_wraps_the_first_use_case_payload() {
    let m = Msg::GetBook(get_book::Payload { book_id: 1 });
    assert!(matches!(m, Msg::GetBook(p) if p.book_id == 1));
}
