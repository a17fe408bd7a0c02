//! A dead-link detector for trees of HTML documents: an in-memory index of
//! parsed documents, a path normalizer, and a resolver that reports relative
//! hyperlinks whose target file or fragment cannot be found in the index.
pub mod cache;
pub mod html;
pub mod paths;
pub mod text;
pub mod tree;
