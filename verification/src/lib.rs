//! A verified core for a book catalog repository.
//!
//! Books carry a closed kind, pagination metadata and a list of
//! structural (kind, name) tags persisted across a one-to-many join.
//! The modules here cover the query builder that renders parameterized
//! SQL for the four retrieval modes, the row aggregator that folds the
//! flat join rows back into books, the batch writer that splits large
//! inserts into parameter-limit-safe chunks, and an in-memory
//! repository that implements the full read/write protocol against a
//! model of the three tables.

pub mod batch;
pub mod command;
pub mod entity;
pub mod error;
pub mod model;
pub mod msg;
pub mod payload;
pub mod query;
pub mod repository;
pub mod row;
pub mod sqltext;
pub mod usecase;
