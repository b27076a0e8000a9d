//! Content collections in the Gitbook layout: front matter, document
//! transforms, heading ids, syntax highlighting and navigation, without I/O.

pub mod collection;
pub mod directives;
pub mod document;
pub mod error;
pub mod front_matter;
pub mod headings;
pub mod highlight;
pub mod markup;
pub mod navigation;
pub mod summary;
pub mod tables;
pub mod text;
