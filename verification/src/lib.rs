//! An in-memory index over the paths of a directory tree, and a small query
//! language to search it: a literal substring of the path, narrowed by
//! constraints on type, extension, size and year of modification.

pub mod explorer;
pub mod filter;
pub mod helper;
pub mod number;
pub mod path;
pub mod text;
pub mod trie;
pub mod trie_laws;

pub use explorer::{Entry, FileExplorer};
pub use filter::Filter;
pub use helper::{format_size_from_string, format_time, try_format_time};
pub use trie::{SearchResult, TrieNode};
