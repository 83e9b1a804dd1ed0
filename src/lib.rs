//! A sentence-level full-text search engine: sorted posting lists of
//! sentence ids, phrase / keyword / boolean queries over them, a small query
//! language, and highlight ranges explaining each match.
pub mod sentence;
pub mod highlight;
pub mod id_list;
pub mod keywords;
pub mod phrase;
pub mod filter;
pub mod searcher;
pub mod query;
pub mod parser;
pub mod term_map;
pub mod builder;
pub mod database;
pub mod corpus;
