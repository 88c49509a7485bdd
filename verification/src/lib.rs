//! Verified core of a local semantic file-search indexer: which files of a
//! directory changed since the last run, how source files are cut into one
//! chunk per definition and workbooks into text, the content-addressed ids
//! of the chunks, and what a changed file deletes from and inserts into the
//! vector store.

pub mod extractor;
pub mod occurrence;
pub mod parser;
pub mod pipeline;
pub mod qdrant;
pub mod sqlite;
pub mod text;
pub mod treesitter;
