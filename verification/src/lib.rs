//! A small full-text search core with machine-checked contracts.
//!
//! Documents are cut into terms (`lexer`), each document's terms are counted
//! into a term table (`table`), and the tables are filed in a corpus index
//! (`corpus`, built by `assembly`). A query is weighed against every
//! document by term frequency and inverse document frequency (`score`,
//! `search`), and the documents are ranked by relevance (`rank`).
//!
//! Around this core stand the index's persisted form (`codec`), the
//! extraction of text from XML (`extract`), and the decisions of the request
//! handler (`handler`). Files, sockets and real arithmetic are the caller's.

pub mod assembly;
pub mod chars;
pub mod codec;
pub mod corpus;
pub mod extract;
pub mod handler;
pub mod lexer;
pub mod ordered;
pub mod rank;
pub mod score;
pub mod search;
pub mod table;
pub mod text;
