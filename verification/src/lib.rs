//! A file-name search engine for NTFS volumes: an in-memory catalogue of
//! every file on a drive, kept current from the change journal, with ranked
//! and bounded substring and wildcard queries over it.

pub mod codec;
pub mod drives;
pub mod file_data;
pub mod file_tree;
pub mod journal;
pub mod search_index;
pub mod snapshot;
pub mod text;
pub mod volume;

