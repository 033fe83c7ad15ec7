//! The errors that tree operations report.

use vstd::prelude::*;

verus! {

/// Why an operation on the bookmark tree was refused.
///
/// An operation that returns an error leaves the tree as it was.
#[derive(Debug, PartialEq, Eq)]
pub enum Error {
    /// Reading or writing the persisted snapshot failed.
    Io(String),
    /// The persisted snapshot is not a bookmark document.
    Json(String),
    /// A node named as a parent, a sibling or a subject of a structural
    /// change is not in the tree.
    NodeIdNotFound(usize),
    /// A node whose content was asked for is not in the tree.
    NodeNotFound(usize),
    /// The text is not an absolute `http` or `https` URL.
    NotWebUrl(String),
    /// The root cannot be removed.
    CannotRemoveRoot(),
    /// The root cannot be moved.
    CannotMoveRoot(),
    /// The node already is where the move would put it.
    SameSourceAndDestination(),
    /// No folder is marked as the toolbar folder.
    ToolbarFolderNotFound(),
    /// The destination lies inside the subtree that would be moved.
    CannotMoveToDescendant(),
    /// A bookmark cannot take a first child.
    CannotPrependAsFirstChild(),
    /// A bookmark cannot take a last child.
    CannotAppendAsLastChild(),
    /// The toolbar folder stays where it is: it cannot be removed or moved,
    /// and a second one cannot be added, nor one outside the root's children.
    ToolbarFolderProtected(),
}

impl Clone for Error {
    fn clone(&self) -> Self {
        match self {
            Error::Io(message) => Error::Io(message.clone()),
            Error::Json(message) => Error::Json(message.clone()),
            Error::NodeIdNotFound(id) => Error::NodeIdNotFound(*id),
            Error::NodeNotFound(id) => Error::NodeNotFound(*id),
            Error::NotWebUrl(url) => Error::NotWebUrl(url.clone()),
            Error::CannotRemoveRoot() => Error::CannotRemoveRoot(),
            Error::CannotMoveRoot() => Error::CannotMoveRoot(),
            Error::SameSourceAndDestination() => Error::SameSourceAndDestination(),
            Error::ToolbarFolderNotFound() => Error::ToolbarFolderNotFound(),
            Error::CannotMoveToDescendant() => Error::CannotMoveToDescendant(),
            Error::CannotPrependAsFirstChild() => Error::CannotPrependAsFirstChild(),
            Error::CannotAppendAsLastChild() => Error::CannotAppendAsLastChild(),
            Error::ToolbarFolderProtected() => Error::ToolbarFolderProtected(),
        }
    }
}

} // verus!
