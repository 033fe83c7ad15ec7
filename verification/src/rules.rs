//! When an operation is refused, and where an accepted one puts its node.

use vstd::prelude::*;
use crate::error::Error;
use crate::node::{BookmarkView, FolderView, NodeDataView};
use crate::tree::{NodeId, TreeView, Position, Destination, slot};

verus! {

impl Destination {
    /// The node that the destination names.
    pub open spec fn anchor(self) -> NodeId {
        match self {
            Destination::End(t) => t,
            Destination::Before(s) => s,
            Destination::After(s) => s,
            Destination::FirstChild(t) => t,
        }
    }

    /// The destination names a sibling, not a folder.
    pub open spec fn beside(self) -> bool {
        self is Before || self is After
    }

    /// The position that the destination takes among the children of the
    /// folder it leads to.
    pub open spec fn position(self) -> Position {
        match self {
            Destination::End(_) => Position::End,
            Destination::Before(s) => Position::Before(s),
            Destination::After(s) => Position::After(s),
            Destination::FirstChild(_) => Position::FirstChild,
        }
    }
}

impl TreeView {
    /// Why a new node with content `data` cannot go to `position` under
    /// `parent`; `None` where it can.
    ///
    /// The parent must be in the tree, and a sibling that the position names
    /// must be one of its children. A bookmark takes no children. A toolbar
    /// folder is accepted only below the root, and only while the tree has none.
    pub open spec fn insert_refusal(
        self,
        parent: NodeId,
        data: NodeDataView,
        position: Position,
    ) -> Option<Error> {
        if !self.contains(parent) {
            Some(Error::NodeIdNotFound(parent))
        } else if slot(self.children(parent), position) is None {
            match position {
                Position::Before(s) => Some(Error::NodeIdNotFound(s)),
                Position::After(s) => Some(Error::NodeIdNotFound(s)),
                _ => None,
            }
        } else if !self.is_folder(parent) {
            match position {
                Position::End => Some(Error::CannotAppendAsLastChild()),
                _ => Some(Error::CannotPrependAsFirstChild()),
            }
        } else if data.is_toolbar() && (parent != self.root || self.has_toolbar()) {
            Some(Error::ToolbarFolderProtected())
        } else {
            None
        }
    }

    /// The index that a new node gets at `position` under `parent`.
    pub open spec fn insert_index(self, parent: NodeId, position: Position) -> int {
        slot(self.children(parent), position)->0
    }

    /// Why `id` cannot be removed; `None` where it can.
    pub open spec fn remove_refusal(self, id: NodeId) -> Option<Error> {
        if !self.contains(id) {
            Some(Error::NodeIdNotFound(id))
        } else if id == self.root {
            Some(Error::CannotRemoveRoot())
        } else if self.is_toolbar(id) {
            Some(Error::ToolbarFolderProtected())
        } else {
            None
        }
    }

    /// The index of `id` among the children of its parent.
    pub open spec fn place(self, id: NodeId) -> int {
        self.children(self.parent(id)->0).index_of(id)
    }

    /// The folder that a destination leads to.
    pub open spec fn move_parent(self, destination: Destination) -> NodeId {
        if destination.beside() {
            self.parent(destination.anchor())->0
        } else {
            destination.anchor()
        }
    }

    /// The index that `id` gets at the destination, counted among the
    /// children of the destination's folder with `id` taken out.
    pub open spec fn move_index(self, id: NodeId, destination: Destination) -> int {
        slot(
            self.lifted(id).children(self.move_parent(destination)),
            destination.position(),
        )->0
    }

    /// The destination is where `id` already is: it names `id` itself as the
    /// sibling, or it leads to the parent of `id` and to the index of `id`.
    pub open spec fn same_place(self, id: NodeId, destination: Destination) -> bool {
        ||| destination.beside() && destination.anchor() == id
        ||| self.parent(id) == Some(self.move_parent(destination)) && self.move_index(
            id,
            destination,
        ) == self.place(id)
    }

    /// Why `id` cannot be moved to `destination`; `None` where it can.
    ///
    /// In this order: the node must be in the tree, and not be the root; the
    /// node that the destination names must be in the tree, and have a parent
    /// where it is named as a sibling; the node must not be there already;
    /// the destination must not lie inside the subtree of the node; the
    /// toolbar folder stays where it is; a bookmark takes no children.
    pub open spec fn move_refusal(self, id: NodeId, destination: Destination) -> Option<Error> {
        let anchor = destination.anchor();
        if !self.contains(id) {
            Some(Error::NodeIdNotFound(id))
        } else if id == self.root {
            Some(Error::CannotMoveRoot())
        } else if !self.contains(anchor) {
            Some(Error::NodeIdNotFound(anchor))
        } else if destination.beside() && anchor == self.root {
            Some(Error::NodeIdNotFound(anchor))
        } else if self.same_place(id, destination) {
            Some(Error::SameSourceAndDestination())
        } else if self.in_subtree(id, self.move_parent(destination)) {
            Some(Error::CannotMoveToDescendant())
        } else if self.is_toolbar(id) {
            Some(Error::ToolbarFolderProtected())
        } else if !self.is_folder(self.move_parent(destination)) {
            match destination {
                Destination::End(_) => Some(Error::CannotAppendAsLastChild()),
                _ => Some(Error::CannotPrependAsFirstChild()),
            }
        } else {
            None
        }
    }
}

impl TreeView {
    /// The folders among `ids`, in the order of `ids`, each with its content.
    pub open spec fn folders_among(self, ids: Seq<NodeId>) -> Seq<(NodeId, FolderView)>
        decreases ids.len(),
    {
        if ids.len() == 0 {
            Seq::empty()
        } else {
            let before = self.folders_among(ids.drop_last());
            match self.data(ids.last()) {
                NodeDataView::Folder(f) => before.push((ids.last(), f)),
                NodeDataView::Bookmark(_) => before,
            }
        }
    }

    /// The bookmarks among `ids`, in the order of `ids`, each with its content.
    pub open spec fn bookmarks_among(self, ids: Seq<NodeId>) -> Seq<(NodeId, BookmarkView)>
        decreases ids.len(),
    {
        if ids.len() == 0 {
            Seq::empty()
        } else {
            let before = self.bookmarks_among(ids.drop_last());
            match self.data(ids.last()) {
                NodeDataView::Bookmark(b) => before.push((ids.last(), b)),
                NodeDataView::Folder(_) => before,
            }
        }
    }

    /// The root, then those of its children that are folders, in their order.
    pub open spec fn root_and_children_folders(self) -> Seq<(NodeId, FolderView)> {
        seq![(self.root, self.data(self.root)->Folder_0)] + self.folders_among(
            self.children(self.root),
        )
    }

    /// Those children of the toolbar folder that are bookmarks, in their
    /// order; none where the tree has no toolbar folder.
    pub open spec fn toolbar_bookmarks(self) -> Seq<(NodeId, BookmarkView)> {
        if self.has_toolbar() {
            self.bookmarks_among(self.children(self.toolbar()))
        } else {
            Seq::empty()
        }
    }
}

} // verus!
