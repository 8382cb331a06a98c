//! Finding duplicated files: which files to look at, which of them to hash,
//! which of them are copies of each other and which copies may be deleted.
pub mod config;
pub mod dir_report;
pub mod file_record;
pub mod filter_duplicates;
pub mod grouping;
pub mod laws;
pub mod lex;
pub mod number;
pub mod outcomes;
pub mod path;
pub mod pattern;
pub mod report;
pub mod scan;
pub mod selection;
pub mod sorting;
pub mod text;
