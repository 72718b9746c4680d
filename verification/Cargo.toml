[package]
name = "book_catalog"
version = "0.1.0"
edition = "2021"
publish = false

[dependencies]
sea-orm = { version = "*", default-features = false, features = ["macros", "sqlx-postgres", "runtime-async-std-rustls", "with-chrono"] }
async-std = { version = "*", features = ["attributes"] }
chrono = "*"
futures = "*"
thiserror = "*"
