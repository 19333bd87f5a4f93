//! Why an edit of a document is refused.

use vstd::prelude::*;

verus! {

/// The reasons for which building or editing a document fails.
#[derive(Debug, PartialEq, Eq, Structural)]
pub enum PdfError {
    /// The trailer holds no reference to a catalog: the file is structurally corrupted.
    MissingCatalog,
    /// The object cannot be reached, or is no dictionary.
    UnreadableObject(u32, u16),
    /// The catalog holds no reference to a page tree: there are no readable pages.
    MissingPageTree,
    /// An image could not be embedded: its data is invalid or of an unsupported format.
    ImageNotEmbeddable,
    /// There is no page with this number to remove.
    NoSuchPage(u32),
    /// The page is the only one left, and a document keeps at least one.
    LastPage(u32),
    /// There is no page with this number to swap.
    InvalidPageNumber(u32),
    /// The first page to swap has no reference to its parent.
    FirstPageWithoutParent,
    /// The first page to swap cannot be read.
    FirstPageUnreadable,
    /// The second page to swap has no reference to its parent.
    SecondPageWithoutParent,
    /// The second page to swap cannot be read.
    SecondPageUnreadable,
}

} // verus!
