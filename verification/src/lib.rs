//! Threaded-story library: builds a comment forest out of the flat,
//! indentation-ordered rows scraped from a story page, materializes it into a
//! domain tree with parent back-references, and carries the small pure helpers
//! (paging windows, list URLs, text indentation) used around it.

pub mod domain;
pub mod listing;
pub mod text;
pub mod tree;
