pub mod get_book;
pub mod get_books;
pub mod get_books_by_ids;
