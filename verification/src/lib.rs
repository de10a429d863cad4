//! Merging of PDF object graphs.
//!
//! Several documents, each with its own object numbering, page tree and
//! catalog, become one document: the objects are renumbered into disjoint
//! ranges, the catalogs and page-tree roots are unified, the pages are hung
//! below the one remaining root in input order, a fresh outline is built from
//! the bookmarks supplied, and the result is compacted to the identifiers
//! `1..=N`.

pub mod names;
pub mod object;
pub mod document;
pub mod renumber;
pub mod pages;
pub mod structure;
pub mod outline;
pub mod merge;
pub mod compress;
pub mod laws;

pub use crate::document::Document;
pub use crate::merge::{merge, Merged};
pub use crate::object::{Dictionary, Object, ObjectId, Stream};
pub use crate::outline::Bookmark;
pub use crate::structure::{MergeError, SkippedPage};
