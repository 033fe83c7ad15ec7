//! What a node of the tree carries: a bookmark or a folder.

use vstd::prelude::*;

verus! {

/// A leaf of the tree: a titled link.
#[derive(Debug, PartialEq, Eq)]
pub struct Bookmark {
    pub title: String,
    pub url: String,
}

/// A container of the tree.
#[derive(Debug, PartialEq, Eq)]
pub struct Folder {
    pub title: String,
    /// Whether the folder is shown expanded.
    pub is_open: bool,
    /// Whether the folder's children are pinned to the toolbar.
    pub is_toolbar: bool,
}

/// The content of a node.
#[derive(Debug, PartialEq, Eq)]
pub enum NodeData {
    Bookmark(Bookmark),
    Folder(Folder),
}

/// The mathematical content of a [`Bookmark`].
pub struct BookmarkView {
    pub title: Seq<char>,
    pub url: Seq<char>,
}

/// The mathematical content of a [`Folder`].
pub struct FolderView {
    pub title: Seq<char>,
    pub is_open: bool,
    pub is_toolbar: bool,
}

/// The mathematical content of a [`NodeData`].
pub enum NodeDataView {
    Bookmark(BookmarkView),
    Folder(FolderView),
}

impl NodeDataView {
    pub open spec fn is_folder(self) -> bool {
        self is Folder
    }

    pub open spec fn is_toolbar(self) -> bool {
        self matches NodeDataView::Folder(f) && f.is_toolbar
    }

    pub open spec fn title(self) -> Seq<char> {
        match self {
            NodeDataView::Bookmark(b) => b.title,
            NodeDataView::Folder(f) => f.title,
        }
    }

    /// The same content under another title.
    pub open spec fn retitled(self, title: Seq<char>) -> NodeDataView {
        match self {
            NodeDataView::Bookmark(b) => NodeDataView::Bookmark(BookmarkView { title, url: b.url }),
            NodeDataView::Folder(f) => NodeDataView::Folder(
                FolderView { title, is_open: f.is_open, is_toolbar: f.is_toolbar },
            ),
        }
    }

    /// The same content with the folder shown open or closed; a bookmark has
    /// no such state and stays as it is.
    pub open spec fn opened(self, open: bool) -> NodeDataView {
        match self {
            NodeDataView::Bookmark(b) => self,
            NodeDataView::Folder(f) => NodeDataView::Folder(
                FolderView { title: f.title, is_open: open, is_toolbar: f.is_toolbar },
            ),
        }
    }
}

impl View for Bookmark {
    type V = BookmarkView;

    open spec fn view(&self) -> BookmarkView {
        BookmarkView { title: self.title@, url: self.url@ }
    }
}

impl View for Folder {
    type V = FolderView;

    open spec fn view(&self) -> FolderView {
        FolderView { title: self.title@, is_open: self.is_open, is_toolbar: self.is_toolbar }
    }
}

impl View for NodeData {
    type V = NodeDataView;

    open spec fn view(&self) -> NodeDataView {
        match self {
            NodeData::Bookmark(b) => NodeDataView::Bookmark(b@),
            NodeData::Folder(f) => NodeDataView::Folder(f@),
        }
    }
}

impl Clone for Bookmark {
    fn clone(&self) -> (r: Self)
        ensures
            r@ == self@,
    {
        Bookmark { title: self.title.clone(), url: self.url.clone() }
    }
}

impl Clone for Folder {
    fn clone(&self) -> (r: Self)
        ensures
            r@ == self@,
    {
        Folder { title: self.title.clone(), is_open: self.is_open, is_toolbar: self.is_toolbar }
    }
}

impl Clone for NodeData {
    fn clone(&self) -> (r: Self)
        ensures
            r@ == self@,
    {
        match self {
            NodeData::Bookmark(b) => NodeData::Bookmark(b.clone()),
            NodeData::Folder(f) => NodeData::Folder(f.clone()),
        }
    }
}

impl Bookmark {
    /// A bookmark with the given title and address.
    pub fn new(title: String, url: String) -> (r: Self)
        ensures
            r@ == (BookmarkView { title: title@, url: url@ }),
    {
        Bookmark { title, url }
    }
}

impl Folder {
    /// A closed folder that is not the toolbar folder.
    pub fn new(title: String) -> (r: Self)
        ensures
            r@ == (FolderView { title: title@, is_open: false, is_toolbar: false }),
    {
        Folder { title, is_open: false, is_toolbar: false }
    }

    /// A closed folder marked as the toolbar folder.
    pub fn toolbar(title: String) -> (r: Self)
        ensures
            r@ == (FolderView { title: title@, is_open: false, is_toolbar: true }),
    {
        Folder { title, is_open: false, is_toolbar: true }
    }
}

impl NodeData {
    /// Whether this is a folder.
    pub fn is_folder(&self) -> (r: bool)
        ensures
            r == self@.is_folder(),
    {
        match self {
            NodeData::Bookmark(_) => false,
            NodeData::Folder(_) => true,
        }
    }

    /// Whether this is the toolbar folder.
    pub fn is_toolbar(&self) -> (r: bool)
        ensures
            r == self@.is_toolbar(),
    {
        match self {
            NodeData::Bookmark(_) => false,
            NodeData::Folder(f) => f.is_toolbar,
        }
    }

    /// The title shown for the node.
    pub fn title(&self) -> (r: &String)
        ensures
            r@ == self@.title(),
    {
        match self {
            NodeData::Bookmark(b) => &b.title,
            NodeData::Folder(f) => &f.title,
        }
    }
}

} // verus!
