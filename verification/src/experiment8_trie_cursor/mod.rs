//! A pattern trie driven by a cursor.
//!
//! Keys are read label by label from the end of the host name, then along
//! the URL path, so that one cursor walks from the most general part of a
//! request to its most specific part. Trie nodes branch on literal bytes, on
//! regular expressions and on a wildcard that stands for one host label.

pub mod cursor;
pub mod laws;
pub mod meaning;
pub mod pinned;
pub mod trie;
