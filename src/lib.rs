//! A lookup tree for domain-name rules.
//!
//! A rule is either absolute (`www.example.com`, which matches that one
//! domain) or a wildcard (`.example.com`, which matches `example.com` and
//! every domain below it). Rules are kept in a trie keyed by labels, with the
//! top-level label first, so that inserting or looking up a domain takes time
//! proportional to its number of labels.
pub mod labels;
pub mod tree;
pub mod laws;
