//! An in-memory, line-indexed representation of text documents, kept in
//! step with an editor that reports edits as `(range, replacement text)`
//! change events.
//!
//! [`Document`] is the per-document engine: it holds the rows of one
//! document and applies single-line substitutions, row deletions and
//! multi-line replacements. [`TableOfContents`] is the registry that owns
//! one [`Document`] per identifier and routes open, change, query and
//! delete requests to it.

pub mod error;
pub mod document;
pub mod documentparams;
pub mod lines;
pub mod tableofcontents;

pub use document::Document;
pub use document::TDocument;
pub use documentparams::ChangeDocument;
pub use documentparams::ChangeEvent;
pub use documentparams::OpenDocument;
pub use documentparams::Position;
pub use documentparams::Range;
pub use documentparams::RawChangeEvent;
pub use error::DocumentError;
pub use error::TableOfContentsError;
pub use tableofcontents::TableOfContents;
