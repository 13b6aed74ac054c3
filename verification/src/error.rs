//! The error vocabulary shared by the document engine and the registry.

use vstd::prelude::*;

verus! {

/// A failure while applying an edit to one document.
#[derive(Debug)]
pub enum DocumentError {
    /// A single-line substitution was requested with a start character
    /// offset greater than its end character offset.
    EndBeforeStart,
    /// An edit referenced an offset that the document cannot satisfy:
    /// the offset that was requested, and how much is available.
    LineOutOfRange(usize, usize),
    /// The caller supplied a change event without an explicit range; the
    /// legacy length-based encoding cannot be converted to the range model.
    Deprecated(String),
    /// Defensive catch-all for a state that correct operation never reaches.
    Other(String),
}

/// A failure while routing a request through the document registry.
#[derive(Debug)]
pub enum TableOfContentsError {
    /// The document engine rejected an edit; the underlying error is kept.
    DocumentError(DocumentError),
    /// A change request targeted an identifier with no prior open.
    ChangeOnUnopen,
}

impl From<DocumentError> for TableOfContentsError {
    fn from(value: DocumentError) -> (r: Self) {
        TableOfContentsError::DocumentError(value)
    }
}

impl vstd::std_specs::convert::FromSpecImpl<DocumentError> for TableOfContentsError {
    open spec fn obeys_from_spec() -> bool {
        true
    }

    open spec fn from_spec(value: DocumentError) -> Self {
        TableOfContentsError::DocumentError(value)
    }
}

} // verus!
