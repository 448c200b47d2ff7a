//! An in-memory index of markdown blog posts.
//!
//! Raw post files are turned into `Post` records: markdown noise is stripped
//! from the content, the result is truncated to a byte budget on a character
//! boundary, and the modification timestamp is rendered as a short date
//! string. Posts are grouped by category and sorted pinned-first, then by
//! their formatted date, with a stable order on ties.

pub mod container;
pub mod date;
pub mod post;
pub mod sorting;
pub mod text;

pub use container::PostsContainer;
pub use post::{CategorySource, FilterTag, Post, PostFile, PostInput, PostMetadata, PostsError};
pub use text::find_char_boundary;
