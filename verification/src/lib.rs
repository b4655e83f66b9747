//! Sophist keeps track of files by path and by meaning: a store of file
//! records (name, absolute path, embedding), the rules that decide which
//! files can be tracked and how they are embedded, and the ranking that
//! answers a semantic search.

pub mod text;
pub mod file_types;
pub mod ranking;
pub mod storage;
pub mod sql_accessor;
pub mod stalker;
pub mod embeddor;
pub mod setup;
