//! Incremental index of text extracted from images, with fuzzy search over it.
//!
//! - [`file`]: what identifies a file, what the index keeps of it, and which
//!   image files are indexed at all.
//! - [`database`]: the index, one row for each file, and the rule that tells
//!   whether a file has to be indexed again.
//! - [`indexer`]: the decisions of a walk through a directory.
//! - [`fuzzy`]: the score of a query against a text.
//! - [`search`]: the ranking of candidates by that score.
//! - [`text`], [`timestamp`]: texts as characters, and instants.
//!
//! Reading directories and images, extracting text and storing rows are left
//! to the program around this library.

pub mod database;
pub mod file;
pub mod fuzzy;
pub mod indexer;
pub mod search;
pub mod text;
pub mod timestamp;
