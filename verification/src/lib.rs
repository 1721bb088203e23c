//! A minimal in-memory full-text search index.
//!
//! Documents are plain strings. Inserting a document assigns it the next
//! integer ID, tokenizes its text, and records the ID in the posting set of
//! every token it produced. Queries are tokenized the same way and answered
//! by a union (`search_or`) or an intersection (`search_and`) of the posting
//! sets of the query's tokens.

pub mod iindex;
pub mod tokenizer;
