use book_catalog::entity::{Book, BookKind, BookSortBy, BookTag, Sort};
use book_catalog::repository::InMemoryBookRepository;

fn book(id: u64, title: &str, tags: Vec<BookTag>) -> Book {
    Book {
        id,
        title: title.to_owned(),
        page: 12,
        language: "korean".to_owned(),
        kind: BookKind::Manga,
        tags,
        created_at: 1_646_000_000,
    }
}

fn tag_pairs(b: &Book) -> Vec<(String, String)> {
    b.tags.iter().map(|t| (t.kind().to_owned(), t.name().to_owned())).collect()
}

#[test]
fn add_then_get_one_round_trip() {
    let mut repo = InMemoryBookRepository::new();
    let added = repo
        .add(book(1, "alpha", vec![BookTag::Artist("X".to_owned()), BookTag::Female("Y".to_owned())]))
        .unwrap();
    assert!(added);
    let got = repo.get_one(1).unwrap().expect("book 1 present");
    assert_eq!(got.id, 1);
    assert_eq!(got.title, "alpha");
    assert_eq!(got.page, 12);
    assert_eq!(got.language, "korean");
    assert!(matches!(got.kind, BookKind::Manga));
    let mut pairs = tag_pairs(&got);
    pairs.sort();
    assert_eq!(
        pairs,
        vec![("artist".to_owned(), "X".to_owned()), ("female".to_owned(), "Y".to_owned())]
    );
}

#[test]
fn get_one_absent_is_none() {
    let repo = InMemoryBookRepository::new();
    assert!(repo.get_one(42).unwrap().is_none());
}

#[test]
fn get_one_tag_counts_zero_one_many() {
    let mut repo = InMemoryBookRepository::new();
    repo.add(book(1, "none", vec![])).unwrap();
    repo.add(book(2, "one", vec![BookTag::Misc("a".to_owned())])).unwrap();
    repo.add(
        book(
            3,
            "many",
            vec![
                BookTag::Artist("a".to_owned()),
                BookTag::Series("b".to_owned()),
                BookTag::Male("c".to_owned()),
            ],
        ),
    )
    .unwrap();
    assert_eq!(repo.get_one(1).unwrap().unwrap().tags.len(), 0);
    assert_eq!(repo.get_one(2).unwrap().unwrap().tags.len(), 1);
    assert_eq!(repo.get_one(3).unwrap().unwrap().tags.len(), 3);
}

#[test]
fn re_add_same_id_is_not_added_and_keeps_first_state() {
    let mut repo = InMemoryBookRepository::new();
    assert!(repo.add(book(7, "first", vec![BookTag::Artist("X".to_owned())])).unwrap());
    // A different tag set and title on the second call changes nothing.
    let second = book(7, "second", vec![BookTag::Group("G".to_owned())]);
    assert!(!repo.add(second).unwrap());
    let got = repo.get_one(7).unwrap().unwrap();
    assert_eq!(got.title, "first");
    assert_eq!(tag_pairs(&got), vec![("artist".to_owned(), "X".to_owned())]);
}

#[test]
fn get_many_by_ids_keeps_first_occurrence_order() {
    let mut repo = InMemoryBookRepository::new();
    repo.add(book(1, "a", vec![])).unwrap();
    repo.add(book(2, "b", vec![])).unwrap();
    repo.add(book(3, "c", vec![])).unwrap();
    // Duplicates and unknown ids interspersed.
    let got = repo.get_many_by_ids(vec![2, 99, 1, 2, 3, 1]).unwrap();
    let ids: Vec<u64> = got.iter().map(|b| b.id).collect();
    assert_eq!(ids, vec![2, 1, 3]);
}

#[test]
fn get_many_by_ids_empty_and_all_unknown() {
    let mut repo = InMemoryBookRepository::new();
    repo.add(book(1, "a", vec![])).unwrap();
    assert!(repo.get_many_by_ids(vec![]).unwrap().is_empty());
    assert!(repo.get_many_by_ids(vec![5, 6]).unwrap().is_empty());
}

#[test]
fn get_many_pages_reconstruct_ascending() {
    let mut repo = InMemoryBookRepository::new();
    // Insert out of order, with ids 1..=5.
    for id in [3u64, 1, 5, 2, 4] {
        repo.add(book(id, "t", vec![])).unwrap();
    }
    let mut all: Vec<u64> = Vec::new();
    for page in 1..=3usize {
        let got = repo.get_many(None, 2, page, BookSortBy::Id(Sort::Asc)).unwrap();
        assert!(got.len() <= 2);
        all.extend(got.iter().map(|b| b.id));
    }
    assert_eq!(all, vec![1, 2, 3, 4, 5]);
    // A page past the end is empty.
    assert!(repo.get_many(None, 2, 4, BookSortBy::Id(Sort::Asc)).unwrap().is_empty());
}

#[test]
fn get_many_pages_reconstruct_descending() {
    let mut repo = InMemoryBookRepository::new();
    for id in [3u64, 1, 5, 2, 4] {
        repo.add(book(id, "t", vec![])).unwrap();
    }
    let mut all: Vec<u64> = Vec::new();
    for page in 1..=3usize {
        let got = repo.get_many(None, 2, page, BookSortBy::Id(Sort::Desc)).unwrap();
        all.extend(got.iter().map(|b| b.id));
    }
    assert_eq!(all, vec![5, 4, 3, 2, 1]);
}

#[test]
fn get_many_filters_by_kind() {
    let mut repo = InMemoryBookRepository::new();
    let mut doujinshi = book(1, "d", vec![]);
    doujinshi.kind = BookKind::Doujinshi;
    repo.add(doujinshi).unwrap();
    repo.add(book(2, "m", vec![])).unwrap();
    let got = repo.get_many(Some(BookKind::Doujinshi), 10, 1, BookSortBy::Id(Sort::Asc)).unwrap();
    assert_eq!(got.len(), 1);
    assert_eq!(got[0].id, 1);
}

#[test]
fn get_many_random_returns_stored_order_window() {
    let mut repo = InMemoryBookRepository::new();
    for id in [3u64, 1, 2] {
        repo.add(book(id, "t", vec![])).unwrap();
    }
    let got = repo.get_many(None, 2, 1, BookSortBy::Random).unwrap();
    let ids: Vec<u64> = got.iter().map(|b| b.id).collect();
    assert_eq!(ids, vec![3, 1]);
}

#[test]
fn shared_tag_is_stored_structurally() {
    let mut repo = InMemoryBookRepository::new();
    repo.add(book(1, "a", vec![BookTag::Female("anal".to_owned())])).unwrap();
    repo.add(book(2, "b", vec![BookTag::Female("anal".to_owned())])).unwrap();
    let got1 = repo.get_one(1).unwrap().unwrap();
    let got2 = repo.get_one(2).unwrap().unwrap();
    assert_eq!(tag_pairs(&got1), vec![("female".to_owned(), "anal".to_owned())]);
    assert_eq!(tag_pairs(&got2), vec![("female".to_owned(), "anal".to_owned())]);
}

#[test]
fn duplicate_tags_within_one_book_collapse() {
    let mut repo = InMemoryBookRepository::new();
    repo.add(
        book(
            1,
            "a",
            vec![BookTag::Misc("x".to_owned()), BookTag::Misc("x".to_owned())],
        ),
    )
    .unwrap();
    let got = repo.get_one(1).unwrap().unwrap();
    assert_eq!(got.tags.len(), 1);
}

#[test]
fn tag_group_queries_are_not_implemented() {
    let repo = InMemoryBookRepository::new();
    assert!(matches!(
        repo.get_many_by_tags(vec![BookTag::Misc("x".to_owned())]),
        Err(book_catalog::error::RepositoryError::NotImplemented)
    ));
    assert!(matches!(
        repo.get_many_by_tag(BookTag::Misc("x".to_owned())),
        Err(book_catalog::error::RepositoryError::NotImplemented)
    ));
}

#[test]
fn concrete_scenario_add_get_readd_batch() {
    let mut repo = InMemoryBookRepository::new();
    let added = repo
        .add(book(1, "alpha", vec![BookTag::Artist("X".to_owned()), BookTag::Female("Y".to_owned())]))
        .unwrap();
    assert!(added);
    let got = repo.get_one(1).unwrap().unwrap();
    assert_eq!(got.title, "alpha");
    assert!(matches!(got.kind, BookKind::Manga));
    assert_eq!(got.page, 12);
    assert_eq!(got.language, "korean");
    let mut pairs = tag_pairs(&got);
    pairs.sort();
    assert_eq!(
        pairs,
        vec![("artist".to_owned(), "X".to_owned()), ("female".to_owned(), "Y".to_owned())]
    );
    assert!(!repo
        .add(book(1, "alpha", vec![BookTag::Artist("X".to_owned()), BookTag::Female("Y".to_owned())]))
        .unwrap());
    let batch = repo.get_many_by_ids(vec![1, 99]).unwrap();
    assert_eq!(batch.len(), 1);
    assert_eq!(batch[0].id, 1);
}
