//! TF-IDF indexing and cosine-similarity search over a fixed corpus of
//! documents.
//!
//! The library is verified with Verus. What it takes on trust from the
//! standard library and from outside crates is said where it stands.

pub mod cache;
pub mod document;
pub mod markup;
pub mod ranking;
pub mod ratio;
pub mod reals;
pub mod request;
pub mod response;
pub mod searcher;
pub mod similarity;
pub mod strings;
pub mod terms;
pub mod text;

