//! A term-frequency search index over a tree of marked-up text documents,
//! with incremental re-indexing and TF-IDF ranking.

pub mod index;
pub mod lexer;
pub mod markup;
pub mod model;
pub mod scorer;
pub mod table;
pub mod text;
