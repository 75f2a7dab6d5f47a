//! An in-memory inverted index over a small corpus of text documents, with
//! exact-stem term lookup.
//!
//! The pipeline is linear: [`pairs::tokenize_document`] turns one document's
//! raw text into tagged stem pairs (lowercase, split into maximal alphabetic
//! runs, stem each run); [`pairs::sort_pairs`] orders all pairs by term and
//! then by document identifier; [`store::InvertedIndex::build_from_sorted_pairs`]
//! folds the sorted sequence into a dictionary mapping each stem to a strictly
//! ascending, duplicate-free postings list; and
//! [`store::InvertedIndex::search`] answers point queries against it after
//! normalizing the query with the same lowercase-and-stem transform.

pub mod order;
pub mod pairs;
pub mod stem;
pub mod store;
pub mod tokenize;
