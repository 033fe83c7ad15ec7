//! The operations on the bookmark tree.
//!
//! Each operation checks its arguments before it changes anything: it either
//! completes, or reports an error and leaves the tree as it was.

use vstd::prelude::*;
use crate::arena::{BookmarkArena, find};
use crate::error::Error;
use crate::node::{Bookmark, BookmarkView, Folder, FolderView, NodeData, NodeDataView};
use crate::seqs::{lemma_index_of_unique, lemma_index_of_found, lemma_remove_at};
use crate::tree::{NodeId, Position, Destination};
use crate::web::{is_web_url, web_url};

verus! {

/// The title that a new bookmark gets: the one given, or else its address.
pub open spec fn title_or_url(title: Option<String>, url: Seq<char>) -> Seq<char> {
    match title {
        Some(t) => t@,
        None => url,
    }
}

impl BookmarkArena {
    /// Adds a bookmark as the last child of `parent`.
    ///
    /// The address must be an absolute `http` or `https` URL. It is kept as
    /// given. Without a title the address serves as the title.
    pub fn add_bookmark(&mut self, parent: NodeId, url: String, title: Option<String>) -> (r:
        Result<NodeId, Error>)
        requires
            old(self).wf(),
            old(self).has_room(),
        ensures
            final(self).wf(),
            match r {
                Ok(id) => {
                    let data = NodeDataView::Bookmark(
                        BookmarkView { title: title_or_url(title, url@), url: url@ },
                    );
                    &&& web_url(url@)
                    &&& old(self)@.insert_refusal(parent, data, Position::End) is None
                    &&& id == old(self).next_id()
                    &&& final(self).next_id() == id + 1
                    &&& final(self)@ == old(self)@.with_child(
                        parent,
                        old(self)@.children(parent).len() as int,
                        id,
                        data,
                    )
                },
                Err(e) => {
                    let data = NodeDataView::Bookmark(
                        BookmarkView { title: title_or_url(title, url@), url: url@ },
                    );
                    &&& final(self)@ == old(self)@
                    &&& final(self).next_id() == old(self).next_id()
                    &&& if !web_url(url@) {
                        e == Error::NotWebUrl(url)
                    } else {
                        old(self)@.insert_refusal(parent, data, Position::End) == Some(e)
                    }
                },
            },
    {
        if !is_web_url(url.as_str()) {
            return Err(Error::NotWebUrl(url));
        }
        let shown = match title {
            Some(t) => t,
            None => url.clone(),
        };
        self.insert(parent, NodeData::Bookmark(Bookmark::new(shown, url)), Position::End)
    }

    /// Adds a closed folder as the last child of `parent`.
    pub fn add_folder(&mut self, parent: NodeId, title: String) -> (r: Result<NodeId, Error>)
        requires
            old(self).wf(),
            old(self).has_room(),
        ensures
            final(self).wf(),
            match r {
                Ok(id) => {
                    let data = NodeDataView::Folder(
                        FolderView { title: title@, is_open: false, is_toolbar: false },
                    );
                    &&& old(self)@.insert_refusal(parent, data, Position::End) is None
                    &&& id == old(self).next_id()
                    &&& final(self).next_id() == id + 1
                    &&& final(self)@ == old(self)@.with_child(
                        parent,
                        old(self)@.children(parent).len() as int,
                        id,
                        data,
                    )
                },
                Err(e) => {
                    let data = NodeDataView::Folder(
                        FolderView { title: title@, is_open: false, is_toolbar: false },
                    );
                    &&& final(self)@ == old(self)@
                    &&& final(self).next_id() == old(self).next_id()
                    &&& old(self)@.insert_refusal(parent, data, Position::End) == Some(e)
                },
            },
    {
        self.insert(parent, NodeData::Folder(Folder::new(title)), Position::End)
    }

    /// Adds a bookmark as the last child of the toolbar folder.
    pub fn append_bookmark_to_toolbar(&mut self, url: String, title: Option<String>) -> (r: Result<
        NodeId,
        Error,
    >)
        requires
            old(self).wf(),
            old(self).has_room(),
        ensures
            final(self).wf(),
            match r {
                Ok(id) => {
                    let data = NodeDataView::Bookmark(
                        BookmarkView { title: title_or_url(title, url@), url: url@ },
                    );
                    let folder = old(self)@.toolbar();
                    &&& old(self)@.has_toolbar()
                    &&& web_url(url@)
                    &&& id == old(self).next_id()
                    &&& final(self).next_id() == id + 1
                    &&& final(self)@ == old(self)@.with_child(
                        folder,
                        old(self)@.children(folder).len() as int,
                        id,
                        data,
                    )
                },
                Err(e) => {
                    &&& final(self)@ == old(self)@
                    &&& final(self).next_id() == old(self).next_id()
                    &&& if !old(self)@.has_toolbar() {
                        e == Error::ToolbarFolderNotFound()
                    } else {
                        !web_url(url@) && e == Error::NotWebUrl(url)
                    }
                },
            },
    {
        match self.toolbar_folder() {
            None => Err(Error::ToolbarFolderNotFound()),
            Some(folder) => {
                proof {
                    self.lemma_wf();
                }
                self.add_bookmark(folder, url, title)
            },
        }
    }

    /// Removes a node and everything below it. The root and the toolbar
    /// folder cannot be removed.
    pub fn remove_bookmark(&mut self, node: NodeId) -> (r: Result<(), Error>)
        requires
            old(self).wf(),
        ensures
            final(self).wf(),
            final(self).next_id() == old(self).next_id(),
            match r {
                Ok(()) => {
                    &&& old(self)@.remove_refusal(node) is None
                    &&& final(self)@ == old(self)@.without_subtree(node)
                },
                Err(e) => {
                    &&& old(self)@.remove_refusal(node) == Some(e)
                    &&& final(self)@ == old(self)@
                },
            },
    {
        self.remove(node)
    }

    /// Gives a node another title.
    pub fn update_title(&mut self, node: NodeId, title: String) -> (r: Result<(), Error>)
        requires
            old(self).wf(),
        ensures
            final(self).wf(),
            final(self).next_id() == old(self).next_id(),
            match r {
                Ok(()) => {
                    &&& old(self)@.contains(node)
                    &&& final(self)@ == old(self)@.with_data(
                        node,
                        old(self)@.data(node).retitled(title@),
                    )
                },
                Err(e) => {
                    &&& !old(self)@.contains(node)
                    &&& e == Error::NodeNotFound(node)
                    &&& final(self)@ == old(self)@
                },
            },
    {
        let data = match self.get(node) {
            Err(e) => {
                return Err(e);
            },
            Ok(data) => match data {
                NodeData::Bookmark(b) => NodeData::Bookmark(Bookmark::new(title, b.url.clone())),
                NodeData::Folder(f) => NodeData::Folder(
                    Folder { title, is_open: f.is_open, is_toolbar: f.is_toolbar },
                ),
            },
        };
        self.replace(node, data);
        Ok(())
    }

    /// Shows a folder open or closed. A bookmark has no such state: for a
    /// bookmark the call succeeds and changes nothing.
    pub fn set_is_open(&mut self, node: NodeId, open: bool) -> (r: Result<(), Error>)
        requires
            old(self).wf(),
        ensures
            final(self).wf(),
            final(self).next_id() == old(self).next_id(),
            match r {
                Ok(()) => {
                    &&& old(self)@.contains(node)
                    &&& final(self)@ == old(self)@.with_data(
                        node,
                        old(self)@.data(node).opened(open),
                    )
                },
                Err(e) => {
                    &&& !old(self)@.contains(node)
                    &&& e == Error::NodeNotFound(node)
                    &&& final(self)@ == old(self)@
                },
            },
    {
        let data = match self.get(node) {
            Err(e) => {
                return Err(e);
            },
            Ok(data) => match data {
                NodeData::Bookmark(b) => NodeData::Bookmark(b.clone()),
                NodeData::Folder(f) => NodeData::Folder(
                    Folder { title: f.title.clone(), is_open: open, is_toolbar: f.is_toolbar },
                ),
            },
        };
        self.replace(node, data);
        Ok(())
    }

    /// Shows an open folder closed and a closed folder open. For a bookmark
    /// the call succeeds and changes nothing.
    pub fn toggle_is_open(&mut self, node: NodeId) -> (r: Result<(), Error>)
        requires
            old(self).wf(),
        ensures
            final(self).wf(),
            final(self).next_id() == old(self).next_id(),
            match r {
                Ok(()) => {
                    &&& old(self)@.contains(node)
                    &&& final(self)@ == old(self)@.with_data(
                        node,
                        match old(self)@.data(node) {
                            NodeDataView::Folder(f) => old(self)@.data(node).opened(!f.is_open),
                            NodeDataView::Bookmark(_) => old(self)@.data(node),
                        },
                    )
                },
                Err(e) => {
                    &&& !old(self)@.contains(node)
                    &&& e == Error::NodeNotFound(node)
                    &&& final(self)@ == old(self)@
                },
            },
    {
        let open = match self.get(node) {
            Err(e) => {
                return Err(e);
            },
            Ok(data) => match data {
                NodeData::Bookmark(_) => false,
                NodeData::Folder(f) => !f.is_open,
            },
        };
        self.set_is_open(node, open)
    }
}

impl BookmarkArena {
    /// Moves a node, with everything below it, to another place in the tree.
    ///
    /// The node is taken out of its parent's list of children and put into
    /// the list of the destination's folder, exactly at the position that the
    /// destination names. The content of the node, and of every node below
    /// it, stays as it is.
    pub fn move_node(&mut self, node: NodeId, destination: Destination) -> (r: Result<(), Error>)
        requires
            old(self).wf(),
        ensures
            final(self).wf(),
            final(self).next_id() == old(self).next_id(),
            match r {
                Ok(()) => {
                    &&& old(self)@.move_refusal(node, destination) is None
                    &&& final(self)@ == old(self)@.moved(
                        node,
                        old(self)@.move_parent(destination),
                        old(self)@.move_index(node, destination),
                    )
                },
                Err(e) => {
                    &&& old(self)@.move_refusal(node, destination) == Some(e)
                    &&& final(self)@ == old(self)@
                },
            },
    {
        let ghost t = self@;
        proof {
            self.lemma_wf();
        }
        let toolbar = match self.get(node) {
            Err(_) => {
                return Err(Error::NodeIdNotFound(node));
            },
            Ok(data) => data.is_toolbar(),
        };
        if node == self.root() {
            return Err(Error::CannotMoveRoot());
        }
        let (anchor, beside, at_end) = match destination {
            Destination::End(a) => (a, false, true),
            Destination::Before(a) => (a, true, false),
            Destination::After(a) => (a, true, false),
            Destination::FirstChild(a) => (a, false, false),
        };
        if !self.contains(anchor) {
            return Err(Error::NodeIdNotFound(anchor));
        }
        let parent = if beside {
            match self.parent_of(anchor) {
                None => {
                    return Err(Error::NodeIdNotFound(anchor));
                },
                Some(p) => p,
            }
        } else {
            anchor
        };
        assert(t.nodes.contains_key(node) && t.nodes.contains_key(anchor));
        assert(t.nodes.contains_key(parent));
        assert(parent == t.move_parent(destination));
        let folder = match self.get(parent) {
            Err(_) => false,
            Ok(data) => data.is_folder(),
        };
        if beside && anchor == node {
            return Err(Error::SameSourceAndDestination());
        }
        let from = self.parent_of(node).unwrap();
        let siblings = self.children_of(from);
        let kids = self.children_of(parent);
        proof {
            lemma_index_of_found(siblings@, node);
            if beside {
                lemma_index_of_found(kids@, anchor);
            }
        }
        let at = find(&siblings, node).unwrap();
        let raw: usize = match destination {
            Destination::End(_) => kids.len(),
            Destination::FirstChild(_) => 0,
            Destination::Before(_) => find(&kids, anchor).unwrap(),
            Destination::After(_) => find(&kids, anchor).unwrap() + 1,
        };
        let index: usize = if parent == from && raw > at {
            raw - 1
        } else {
            raw
        };
        proof {
            lemma_index_of_unique(siblings@, at as int);
            lemma_remove_at(siblings@, at as int);
            let lifted = t.lifted(node).children(parent);
            assert(lifted == if parent == from {
                siblings@.remove(at as int)
            } else {
                kids@
            });
            assert(t.nodes.contains_key(parent));
            assert(lifted.no_duplicates());
            if beside {
                let found: int = if destination is Before {
                    raw as int
                } else {
                    raw - 1
                };
                lemma_index_of_unique(kids@, found);
                let there = if parent == from && found > at {
                    found - 1
                } else {
                    found
                };
                assert(lifted[there] == anchor);
                lemma_index_of_unique(lifted, there);
            }
            assert(index == t.move_index(node, destination));
            assert(at == t.place(node));
        }
        if parent == from && index == at {
            return Err(Error::SameSourceAndDestination());
        }
        if self.in_subtree(node, parent) {
            return Err(Error::CannotMoveToDescendant());
        }
        if toolbar {
            return Err(Error::ToolbarFolderProtected());
        }
        if !folder {
            proof {
                if beside {
                    assert(t.nodes[parent].children.contains(anchor));
                    assert(t.nodes[parent].children.len() == 0);
                }
            }
            if at_end {
                return Err(Error::CannotAppendAsLastChild());
            }
            return Err(Error::CannotPrependAsFirstChild());
        }
        self.relocate(node, parent, index);
        Ok(())
    }

    /// Moves `node` directly before `sibling`, under the parent of `sibling`.
    pub fn insert_before(&mut self, node: NodeId, sibling: NodeId) -> (r: Result<(), Error>)
        requires
            old(self).wf(),
        ensures
            final(self).wf(),
            final(self).next_id() == old(self).next_id(),
            match r {
                Ok(()) => {
                    let to = Destination::Before(sibling);
                    &&& old(self)@.move_refusal(node, to) is None
                    &&& final(self)@ == old(self)@.moved(
                        node,
                        old(self)@.move_parent(to),
                        old(self)@.move_index(node, to),
                    )
                },
                Err(e) => {
                    &&& old(self)@.move_refusal(node, Destination::Before(sibling)) == Some(e)
                    &&& final(self)@ == old(self)@
                },
            },
    {
        self.move_node(node, Destination::Before(sibling))
    }

    /// Moves `node` directly after `sibling`, under the parent of `sibling`.
    pub fn insert_after(&mut self, node: NodeId, sibling: NodeId) -> (r: Result<(), Error>)
        requires
            old(self).wf(),
        ensures
            final(self).wf(),
            final(self).next_id() == old(self).next_id(),
            match r {
                Ok(()) => {
                    let to = Destination::After(sibling);
                    &&& old(self)@.move_refusal(node, to) is None
                    &&& final(self)@ == old(self)@.moved(
                        node,
                        old(self)@.move_parent(to),
                        old(self)@.move_index(node, to),
                    )
                },
                Err(e) => {
                    &&& old(self)@.move_refusal(node, Destination::After(sibling)) == Some(e)
                    &&& final(self)@ == old(self)@
                },
            },
    {
        self.move_node(node, Destination::After(sibling))
    }

    /// Moves `node` behind the last child of `folder`.
    pub fn append_to_child(&mut self, node: NodeId, folder: NodeId) -> (r: Result<(), Error>)
        requires
            old(self).wf(),
        ensures
            final(self).wf(),
            final(self).next_id() == old(self).next_id(),
            match r {
                Ok(()) => {
                    let to = Destination::End(folder);
                    &&& old(self)@.move_refusal(node, to) is None
                    &&& final(self)@ == old(self)@.moved(
                        node,
                        folder,
                        old(self)@.move_index(node, to),
                    )
                },
                Err(e) => {
                    &&& old(self)@.move_refusal(node, Destination::End(folder)) == Some(e)
                    &&& final(self)@ == old(self)@
                },
            },
    {
        self.move_node(node, Destination::End(folder))
    }

    /// Moves `node` before the first child of `folder`.
    pub fn prepend_to_child(&mut self, node: NodeId, folder: NodeId) -> (r: Result<(), Error>)
        requires
            old(self).wf(),
        ensures
            final(self).wf(),
            final(self).next_id() == old(self).next_id(),
            match r {
                Ok(()) => {
                    &&& old(self)@.move_refusal(node, Destination::FirstChild(folder)) is None
                    &&& final(self)@ == old(self)@.moved(node, folder, 0)
                },
                Err(e) => {
                    &&& old(self)@.move_refusal(node, Destination::FirstChild(folder)) == Some(e)
                    &&& final(self)@ == old(self)@
                },
            },
    {
        self.move_node(node, Destination::FirstChild(folder))
    }
}

/// The identifiers and the contents of a list of folders.
pub open spec fn folder_views(list: Seq<(NodeId, Folder)>) -> Seq<(NodeId, FolderView)> {
    list.map_values(|entry: (NodeId, Folder)| (entry.0, entry.1@))
}

/// The identifiers and the contents of a list of bookmarks.
pub open spec fn bookmark_views(list: Seq<(NodeId, Bookmark)>) -> Seq<(NodeId, BookmarkView)> {
    list.map_values(|entry: (NodeId, Bookmark)| (entry.0, entry.1@))
}

impl BookmarkArena {
    /// The root and the folders directly below it, for a folder picker.
    pub fn root_and_children_folders(&self) -> (r: Vec<(NodeId, Folder)>)
        requires
            self.wf(),
        ensures
            folder_views(r@) == self@.root_and_children_folders(),
    {
        let ghost t = self@;
        proof {
            self.lemma_wf();
        }
        let root = self.root();
        let mut out: Vec<(NodeId, Folder)> = Vec::new();
        match self.get(root) {
            Ok(NodeData::Folder(f)) => {
                out.push((root, f.clone()));
            },
            _ => {
                assert(false);
            },
        }
        let kids = self.children_of(root);
        assert(folder_views(out@) =~= seq![(t.root, t.data(t.root)->Folder_0)]);
        let mut i: usize = 0;
        while i < kids.len()
            invariant
                self.wf(),
                t == self@,
                root == t.root,
                kids@ == t.children(root),
                i <= kids.len(),
                folder_views(out@) == seq![(t.root, t.data(t.root)->Folder_0)] + t.folders_among(
                    kids@.subrange(0, i as int),
                ),
            decreases kids.len() - i,
        {
            let kid = kids[i];
            let ghost before = out@;
            proof {
                self.lemma_wf();
                assert(t.nodes.contains_key(t.nodes[root].children[i as int]));
                assert(kids@.subrange(0, i + 1).drop_last() =~= kids@.subrange(0, i as int));
            }
            match self.get(kid) {
                Ok(NodeData::Folder(f)) => {
                    out.push((kid, f.clone()));
                    assert(folder_views(out@) =~= folder_views(before).push((kid, f@)));
                },
                _ => {},
            }
            i += 1;
        }
        assert(kids@.subrange(0, kids.len() as int) =~= kids@);
        out
    }

    /// The bookmarks directly below the toolbar folder.
    pub fn toolbar_bookmarks(&self) -> (r: Vec<(NodeId, Bookmark)>)
        requires
            self.wf(),
        ensures
            bookmark_views(r@) == self@.toolbar_bookmarks(),
    {
        let ghost t = self@;
        let mut out: Vec<(NodeId, Bookmark)> = Vec::new();
        let folder = match self.toolbar_folder() {
            None => {
                assert(bookmark_views(out@) =~= Seq::empty());
                return out;
            },
            Some(folder) => folder,
        };
        let kids = self.children_of(folder);
        assert(bookmark_views(out@) =~= Seq::empty());
        let mut i: usize = 0;
        while i < kids.len()
            invariant
                self.wf(),
                t == self@,
                t.contains(folder),
                kids@ == t.children(folder),
                i <= kids.len(),
                bookmark_views(out@) == t.bookmarks_among(kids@.subrange(0, i as int)),
            decreases kids.len() - i,
        {
            let kid = kids[i];
            let ghost before = out@;
            proof {
                self.lemma_wf();
                assert(t.nodes.contains_key(t.nodes[folder].children[i as int]));
                assert(kids@.subrange(0, i + 1).drop_last() =~= kids@.subrange(0, i as int));
            }
            match self.get(kid) {
                Ok(NodeData::Bookmark(b)) => {
                    out.push((kid, b.clone()));
                    assert(bookmark_views(out@) =~= bookmark_views(before).push((kid, b@)));
                },
                _ => {},
            }
            i += 1;
        }
        assert(kids@.subrange(0, kids.len() as int) =~= kids@);
        out
    }
}

} // verus!
