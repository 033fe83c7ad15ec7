//! The arena that owns the nodes.

use vstd::prelude::*;
use std::collections::HashMap;
use crate::error::Error;
use crate::node::{NodeData, NodeDataView};
use crate::seqs::{lemma_index_of_unique, lemma_index_of_found, lemma_unique_within};
use crate::shape::{
    lemma_with_child_well_formed, lemma_with_data_well_formed, lemma_without_subtree_well_formed,
    lemma_moved_well_formed,
};
use crate::tree::{
    NodeId, NodeView, TreeView, Position, lemma_subtree_child, lemma_subtree_top,
    lemma_parent_outside, lemma_subtree_contains, lemma_ancestor_extend, lemma_ancestor_stops,
};

verus! {

/// One record of the arena.
struct Node {
    parent: Option<NodeId>,
    children: Vec<NodeId>,
    data: NodeData,
}

impl View for Node {
    type V = NodeView;

    closed spec fn view(&self) -> NodeView {
        NodeView { parent: self.parent, children: self.children@, data: self.data@ }
    }
}

/// A tree of bookmarks and folders.
///
/// The arena owns every node and hands out identifiers. An identifier names
/// its node until the node is removed, and no identifier is handed out twice.
pub struct BookmarkArena {
    nodes: HashMap<NodeId, Node>,
    root: NodeId,
    next: NodeId,
}

impl View for BookmarkArena {
    type V = TreeView;

    closed spec fn view(&self) -> TreeView {
        TreeView {
            root: self.root,
            nodes: Map::new(
                |id: NodeId| self.nodes@.contains_key(id),
                |id: NodeId| self.nodes@[id]@,
            ),
        }
    }
}

impl BookmarkArena {
    /// The tree is well formed and every identifier in use lies below the
    /// next one to be handed out.
    pub closed spec fn wf(&self) -> bool {
        &&& self@.well_formed()
        &&& forall|id: NodeId| #[trigger] self.nodes@.contains_key(id) ==> id < self.next
    }

    /// The identifier that the next new node gets.
    pub closed spec fn next_id(&self) -> NodeId {
        self.next
    }

    /// An identifier is left for one more node: the next one is not the
    /// largest number that an identifier can be.
    pub open spec fn has_room(&self) -> bool {
        self.next_id() < usize::MAX
    }

    /// A well-formed arena has a well-formed tree, and the next identifier is
    /// not in use.
    pub proof fn lemma_wf(&self)
        requires
            self.wf(),
        ensures
            self@.well_formed(),
            !self@.contains(self.next_id()),
    {
    }

    /// The identifiers of a well-formed arena lie below the largest number
    /// that an identifier can be.
    pub proof fn lemma_ids_bounded(&self, id: NodeId)
        requires
            self.wf(),
            self@.contains(id),
        ensures
            id < usize::MAX,
    {
        assert(self.nodes@.contains_key(id));
    }

    /// A fresh arena, with the identifier of its root: a closed folder titled
    /// `Root`, and nothing else. The root has the identifier 0.
    pub fn create_root() -> (r: (BookmarkArena, NodeId))
        ensures
            r.0.wf(),
            r.1 == 0,
            r.0.next_id() == 1,
            r.0@.root == r.1,
            r.0@.nodes =~= map![r.1 => NodeView {
                parent: None,
                children: Seq::empty(),
                data: NodeDataView::Folder(
                    crate::node::FolderView { title: "Root"@, is_open: false, is_toolbar: false },
                ),
            }],
    {
        let mut nodes: HashMap<NodeId, Node> = HashMap::new();
        let data = NodeData::Folder(crate::node::Folder::new("Root".to_owned()));
        nodes.insert(0, Node { parent: None, children: Vec::new(), data });
        let arena = BookmarkArena { nodes, root: 0, next: 1 };
        proof {
            let t = arena@;
            assert(t.nodes.dom() =~= set![0usize]);
            assert(t.ranked(|id: NodeId| 0nat));
        }
        (arena, 0)
    }

    /// The root of the tree.
    pub fn root(&self) -> (r: NodeId)
        ensures
            r == self@.root,
    {
        self.root
    }

    /// Whether `id` names a node of the tree.
    pub fn contains(&self, id: NodeId) -> (r: bool)
        ensures
            r == self@.contains(id),
    {
        self.nodes.contains_key(&id)
    }

    /// Whether one more node can be added.
    pub fn is_full(&self) -> (r: bool)
        ensures
            r == !self.has_room(),
    {
        self.next == usize::MAX
    }

    /// The content of a node.
    pub fn get(&self, node: NodeId) -> (r: Result<&NodeData, Error>)
        ensures
            match r {
                Ok(data) => self@.contains(node) && data@ == self@.data(node),
                Err(e) => !self@.contains(node) && e == Error::NodeNotFound(node),
            },
    {
        match self.nodes.get(&node) {
            Some(n) => Ok(&n.data),
            None => Err(Error::NodeNotFound(node)),
        }
    }

    /// The parent of a node; `None` for the root and for a node that is not
    /// in the tree.
    pub fn parent_of(&self, node: NodeId) -> (r: Option<NodeId>)
        ensures
            r == if self@.contains(node) {
                self@.parent(node)
            } else {
                None
            },
    {
        match self.nodes.get(&node) {
            Some(n) => n.parent,
            None => None,
        }
    }

    /// The children of a node, in order; none for a bookmark and for a node
    /// that is not in the tree.
    pub fn children_of(&self, node: NodeId) -> (r: Vec<NodeId>)
        ensures
            r@ == if self@.contains(node) {
                self@.children(node)
            } else {
                Seq::empty()
            },
    {
        match self.nodes.get(&node) {
            Some(n) => n.children.clone(),
            None => Vec::new(),
        }
    }
}

/// The index at which `id` stands in `list`, if it is there.
pub(crate) fn find(list: &Vec<NodeId>, id: NodeId) -> (r: Option<usize>)
    ensures
        match r {
            Some(i) => i < list.len() && list[i as int] == id,
            None => !list@.contains(id),
        },
{
    let mut i: usize = 0;
    while i < list.len()
        invariant
            i <= list.len(),
            forall|j: int| 0 <= j < i ==> list[j] != id,
        decreases list.len() - i,
    {
        if list[i] == id {
            return Some(i);
        }
        i += 1;
    }
    None
}

/// Every node that can be reached from `top` through lists of children that
/// `list` is closed under is in `list`.
proof fn lemma_closed_covers(t: TreeView, top: NodeId, list: Seq<NodeId>, x: NodeId, steps: nat)
    requires
        t.well_formed(),
        list.contains(top),
        forall|y: NodeId, c: NodeId|
            list.contains(y) && #[trigger] t.nodes[y].children.contains(c) ==> list.contains(c),
        t.ancestor(x, steps) == Some(top),
    ensures
        list.contains(x),
    decreases steps,
{
    if steps > 0 {
        let p = t.parent(x)->0;
        lemma_closed_covers(t, top, list, p, (steps - 1) as nat);
        assert(t.nodes.contains_key(x));
        assert(t.nodes[p].children.contains(x));
    }
}

impl BookmarkArena {
    /// The toolbar folder, if the tree has one.
    pub fn toolbar_folder(&self) -> (r: Option<NodeId>)
        requires
            self.wf(),
        ensures
            match r {
                Some(id) => self@.is_toolbar(id) && id == self@.toolbar(),
                None => !self@.has_toolbar(),
            },
    {
        let ghost t = self@;
        let top = self.nodes.get(&self.root).unwrap();
        let mut i: usize = 0;
        while i < top.children.len()
            invariant
                self.wf(),
                t == self@,
                self.nodes@.contains_key(self.root),
                *top == self.nodes@[self.root],
                i <= top.children.len(),
                forall|j: int| 0 <= j < i ==> !t.is_toolbar(#[trigger] top.children[j]),
            decreases top.children.len() - i,
        {
            let c = top.children[i];
            assert(t.nodes.contains_key(t.nodes[t.root].children[i as int]));
            let n = self.nodes.get(&c).unwrap();
            if n.data.is_toolbar() {
                assert(t.is_toolbar(c));
                assert(t.is_toolbar(t.toolbar()));
                assert(t.nodes.contains_key(c) && t.nodes.contains_key(t.toolbar()));
                return Some(c);
            }
            i += 1;
        }
        proof {
            if t.has_toolbar() {
                let b = t.toolbar();
                assert(t.nodes.contains_key(b));
                assert(t.nodes[t.root].children.contains(b));
                let j = t.nodes[t.root].children.index_of(b);
                assert(top.children[j] == b);
            }
        }
        None
    }

    /// Adds a node with content `data` at `position` among the children of
    /// `parent`, and returns its identifier.
    pub fn insert(&mut self, parent: NodeId, data: NodeData, position: Position) -> (r: Result<
        NodeId,
        Error,
    >)
        requires
            old(self).wf(),
            old(self).has_room(),
        ensures
            final(self).wf(),
            match r {
                Ok(id) => {
                    &&& old(self)@.insert_refusal(parent, data@, position) is None
                    &&& id == old(self).next_id()
                    &&& final(self).next_id() == id + 1
                    &&& final(self)@ == old(self)@.with_child(
                        parent,
                        old(self)@.insert_index(parent, position),
                        id,
                        data@,
                    )
                },
                Err(e) => {
                    &&& old(self)@.insert_refusal(parent, data@, position) == Some(e)
                    &&& final(self)@ == old(self)@
                    &&& final(self).next_id() == old(self).next_id()
                },
            },
    {
        let ghost t = self@;
        let index: usize = match self.nodes.get(&parent) {
            None => {
                return Err(Error::NodeIdNotFound(parent));
            },
            Some(p) => {
                assert(t.nodes.contains_key(parent));
                match position {
                    Position::Before(s) => match find(&p.children, s) {
                        None => {
                            return Err(Error::NodeIdNotFound(s));
                        },
                        Some(i) => {
                            proof {
                                lemma_index_of_unique(p.children@, i as int);
                            }
                            i
                        },
                    },
                    Position::After(s) => match find(&p.children, s) {
                        None => {
                            return Err(Error::NodeIdNotFound(s));
                        },
                        Some(i) => {
                            proof {
                                lemma_index_of_unique(p.children@, i as int);
                            }
                            i + 1
                        },
                    },
                    Position::End => {
                        if !p.data.is_folder() {
                            return Err(Error::CannotAppendAsLastChild());
                        }
                        p.children.len()
                    },
                    Position::FirstChild => {
                        if !p.data.is_folder() {
                            return Err(Error::CannotPrependAsFirstChild());
                        }
                        0
                    },
                }
            },
        };
        assert(t.is_folder(parent)) by {
            if !t.nodes[parent].data.is_folder() {
                assert(t.nodes[parent].children.len() == 0);
            }
        }
        assert(index == t.insert_index(parent, position));
        if data.is_toolbar() {
            if parent != self.root {
                return Err(Error::ToolbarFolderProtected());
            }
            if self.toolbar_folder().is_some() {
                return Err(Error::ToolbarFolderProtected());
            }
        }
        let id = self.next;
        let ghost shown = data@;
        let mut p = self.nodes.remove(&parent).unwrap();
        p.children.insert(index, id);
        self.nodes.insert(parent, p);
        self.nodes.insert(id, Node { parent: Some(parent), children: Vec::new(), data });
        self.next = id + 1;
        proof {
            let n = t.with_child(parent, index as int, id, shown);
            assert(self@.nodes =~= n.nodes);
            lemma_with_child_well_formed(t, parent, index as int, id, shown);
        }
        Ok(id)
    }

    /// The nodes of the subtree below and with `top`, each once.
    fn subtree(&self, top: NodeId) -> (r: Vec<NodeId>)
        requires
            self.wf(),
            self@.contains(top),
        ensures
            r@.no_duplicates(),
            forall|x: NodeId| r@.contains(x) <==> self@.in_subtree(top, x),
    {
        let ghost t = self@;
        let mut list: Vec<NodeId> = Vec::new();
        list.push(top);
        let ghost mut owner: Seq<int> = seq![0int];
        let ghost mut place: Seq<int> = seq![0int];
        let mut i: usize = 0;
        proof {
            lemma_subtree_top(t, top);
        }
        while i < list.len()
            invariant
                self.wf(),
                t == self@,
                i <= list.len(),
                list.len() >= 1,
                list[0] == top,
                owner.len() == list.len(),
                place.len() == list.len(),
                list@.no_duplicates(),
                forall|j: int| 0 <= j < list.len() ==> t.in_subtree(top, #[trigger] list[j]),
                forall|j: int|
                    1 <= j < list.len() ==> 0 <= #[trigger] owner[j] < i && 0 <= place[j]
                        < t.nodes[list[owner[j]]].children.len()
                        && t.nodes[list[owner[j]]].children[place[j]] == list[j],
                forall|m: int, c: int|
                    0 <= m < i && 0 <= c < t.nodes[list[m]].children.len() ==> list@.contains(
                        #[trigger] t.nodes[list[m]].children[c],
                    ),
            decreases t.nodes.dom().len() - i,
        {
            let cur = list[i];
            proof {
                lemma_subtree_contains(t, top, cur);
                assert forall|j: int| 0 <= j < list.len() implies t.nodes.dom().contains(
                    #[trigger] list@[j],
                ) by {
                    lemma_subtree_contains(t, top, list[j]);
                }
                lemma_unique_within(list@, t.nodes.dom());
            }
            let node = self.nodes.get(&cur).unwrap();
            let kids = &node.children;
            assert(kids@ == t.nodes[cur].children);
            let mut c: usize = 0;
            while c < kids.len()
                invariant
                    self.wf(),
                    t == self@,
                    i < list.len(),
                    list[i as int] == cur,
                    t.nodes.contains_key(cur),
                    kids@ == t.nodes[cur].children,
                    c <= kids.len(),
                    list[0] == top,
                    owner.len() == list.len(),
                    place.len() == list.len(),
                    list@.no_duplicates(),
                    forall|j: int| 0 <= j < list.len() ==> t.in_subtree(top, #[trigger] list[j]),
                    forall|j: int|
                        1 <= j < list.len() ==> 0 <= #[trigger] owner[j] <= i && 0 <= place[j]
                            < t.nodes[list[owner[j]]].children.len()
                            && t.nodes[list[owner[j]]].children[place[j]] == list[j] && (owner[j] == i
                            ==> place[j] < c),
                    forall|m: int, k: int|
                        0 <= m < i && 0 <= k < t.nodes[list[m]].children.len()
                            ==> list@.contains(#[trigger] t.nodes[list[m]].children[k]),
                    forall|k: int| 0 <= k < c ==> list@.contains(#[trigger] kids[k]),
                decreases kids.len() - c,
            {
                let kid = kids[c];
                proof {
                    assert(t.nodes.contains_key(t.nodes[cur].children[c as int]));
                    assert(t.parent(kid) == Some(cur));
                    lemma_subtree_child(t, top, kid);
                    if list@.contains(kid) {
                        let j = list@.index_of(kid);
                        if j == 0 {
                            lemma_parent_outside(t, top);
                        } else {
                            let m = owner[j];
                            assert(t.nodes.contains_key(list[m])) by {
                                lemma_subtree_contains(t, top, list[m]);
                            }
                            assert(t.nodes.contains_key(t.nodes[list[m]].children[place[j]]));
                            assert(t.parent(kid) == Some(list[m]));
                            assert(m == i);
                        }
                        assert(false);
                    }
                }
                let ghost before = list@;
                list.push(kid);
                proof {
                    owner = owner.push(i as int);
                    place = place.push(c as int);
                    assert forall|m: int, k: int|
                        0 <= m < i && 0 <= k < t.nodes[list[m]].children.len()
                            implies list@.contains(#[trigger] t.nodes[list[m]].children[k]) by {
                        let x = t.nodes[before[m]].children[k];
                        assert(before.contains(x));
                        let w = before.index_of(x);
                        assert(list@[w] == x);
                    }
                    assert forall|k: int| 0 <= k < c + 1 implies list@.contains(
                        #[trigger] kids[k],
                    ) by {
                        if k < c {
                            assert(before.contains(kids[k]));
                            let w = before.index_of(kids[k]);
                            assert(list@[w] == kids[k]);
                        } else {
                            assert(list@[before.len() as int] == kid);
                        }
                    }
                }
                c += 1;
            }
            i += 1;
        }
        proof {
            assert(list@.contains(top)) by {
                assert(list@[0] == top);
            }
            assert forall|y: NodeId, c: NodeId|
                list@.contains(y) && #[trigger] t.nodes[y].children.contains(
                    c,
                ) implies list@.contains(c) by {
                let m = list@.index_of(y);
                let k = t.nodes[y].children.index_of(c);
                assert(list@.contains(t.nodes[list[m]].children[k]));
            }
            assert forall|x: NodeId| list@.contains(x) <==> t.in_subtree(top, x) by {
                if list@.contains(x) {
                    let j = list@.index_of(x);
                    assert(t.in_subtree(top, list[j]));
                }
                if t.in_subtree(top, x) {
                    let steps = choose|steps: nat| t.ancestor(x, steps) == Some(top);
                    lemma_closed_covers(t, top, list@, x, steps);
                }
            }
        }
        list
    }
}

impl BookmarkArena {
    /// Removes a node and everything below it.
    pub fn remove(&mut self, node: NodeId) -> (r: Result<(), Error>)
        requires
            old(self).wf(),
        ensures
            final(self).wf(),
            final(self).next_id() == old(self).next_id(),
            match r {
                Ok(()) => {
                    &&& old(self)@.remove_refusal(node) is None
                    &&& final(self)@ == old(self)@.without_subtree(node)
                },
                Err(e) => {
                    &&& old(self)@.remove_refusal(node) == Some(e)
                    &&& final(self)@ == old(self)@
                },
            },
    {
        let ghost t = self@;
        let from: NodeId = match self.nodes.get(&node) {
            None => {
                return Err(Error::NodeIdNotFound(node));
            },
            Some(n) => {
                if node == self.root {
                    return Err(Error::CannotRemoveRoot());
                }
                if n.data.is_toolbar() {
                    return Err(Error::ToolbarFolderProtected());
                }
                assert(t.nodes.contains_key(node));
                n.parent.unwrap()
            },
        };
        let doomed = self.subtree(node);
        proof {
            lemma_subtree_top(t, node);
            lemma_parent_outside(t, node);
            lemma_index_of_found(t.nodes[from].children, node);
        }
        let mut f = self.nodes.remove(&from).unwrap();
        let at = find(&f.children, node).unwrap();
        proof {
            lemma_index_of_unique(f.children@, at as int);
        }
        f.children.remove(at);
        self.nodes.insert(from, f);
        let ghost unlinked = self.nodes@;
        let ghost cut = t.without_subtree(node);
        proof {
            assert(unlinked.dom() =~= t.nodes.dom());
            assert(unlinked[from]@ == cut.nodes[from]);
            assert(forall|x: NodeId| x != from && unlinked.contains_key(x) ==> unlinked[x]@ == t.nodes[x]);
        }
        let mut k: usize = 0;
        while k < doomed.len()
            invariant
                k <= doomed.len(),
                self.root == old(self).root,
                self.next == old(self).next,
                self.nodes@ == unlinked.remove_keys(doomed@.subrange(0, k as int).to_set()),
            decreases doomed.len() - k,
        {
            let gone = doomed[k];
            self.nodes.remove(&gone);
            proof {
                let done = doomed@.subrange(0, k as int);
                let more = doomed@.subrange(0, k + 1);
                assert(more =~= done.push(gone));
                assert(more.to_set() =~= done.to_set().insert(gone)) by {
                    assert forall|x: NodeId| more.to_set().contains(x) <==> done.to_set().insert(
                        gone,
                    ).contains(x) by {
                        if done.contains(x) {
                            let w = done.index_of(x);
                            assert(more[w] == x);
                        }
                        if x == gone {
                            assert(more[k as int] == x);
                        }
                        if more.contains(x) {
                            let w = more.index_of(x);
                            if w < k {
                                assert(done[w] == x);
                            }
                        }
                    }
                }
                assert(self.nodes@ =~= unlinked.remove_keys(more.to_set()));
            }
            k += 1;
        }
        proof {
            assert(doomed@.subrange(0, doomed.len() as int) =~= doomed@);
            assert forall|x: NodeId| self@.nodes.contains_key(x) <==> cut.nodes.contains_key(x) by {
                assert(doomed@.to_set().contains(x) <==> doomed@.contains(x));
            }
            assert(self@.nodes.dom() =~= cut.nodes.dom());
            assert forall|x: NodeId| self@.nodes.contains_key(x) implies #[trigger] self@.nodes[x]
                == cut.nodes[x] by {
                assert(self.nodes@[x] == unlinked[x]);
            }
            assert(self@.nodes =~= cut.nodes);
            lemma_without_subtree_well_formed(t, node);
            assert forall|x: NodeId| #[trigger] self.nodes@.contains_key(x) implies x
                < self.next by {
                assert(t.nodes.contains_key(x));
            }
        }
        Ok(())
    }

    /// Whether `id` is `top` or lies below it.
    pub fn in_subtree(&self, top: NodeId, id: NodeId) -> (r: bool)
        requires
            self.wf(),
        ensures
            r == self@.in_subtree(top, id),
    {
        let ghost t = self@;
        let ghost rank = t.rank();
        if !self.nodes.contains_key(&id) {
            assert(forall|k: nat| t.ancestor(id, k) is None);
            return false;
        }
        let mut cur = id;
        let ghost mut steps: nat = 0;
        loop
            invariant
                self.wf(),
                t == self@,
                rank == t.rank(),
                t.nodes.contains_key(cur),
                t.ancestor(id, steps) == Some(cur),
                forall|k: nat| k < steps ==> t.ancestor(id, k) != Some(top),
            decreases rank(cur),
        {
            if cur == top {
                return true;
            }
            match self.nodes.get(&cur).unwrap().parent {
                None => {
                    proof {
                        assert forall|k: nat| t.ancestor(id, k) != Some(top) by {
                            if k > steps {
                                lemma_ancestor_stops(t, id, steps, k);
                            }
                        }
                    }
                    return false;
                },
                Some(p) => {
                    proof {
                        lemma_ancestor_extend(t, id, steps);
                        steps = steps + 1;
                    }
                    cur = p;
                },
            }
        }
    }

    /// Moves `id`, with all below it, to `index` among the children of
    /// `parent`, the index counted with `id` taken out of its old place.
    pub(crate) fn relocate(&mut self, id: NodeId, parent: NodeId, index: usize)
        requires
            old(self).wf(),
            old(self)@.contains(id),
            id != old(self)@.root,
            !old(self)@.is_toolbar(id),
            old(self)@.is_folder(parent),
            !old(self)@.in_subtree(id, parent),
            index <= old(self)@.lifted(id).children(parent).len(),
        ensures
            final(self).wf(),
            final(self).next_id() == old(self).next_id(),
            final(self)@ == old(self)@.moved(id, parent, index as int),
    {
        let ghost t = self@;
        assert(t.nodes.contains_key(id));
        let from = self.nodes.get(&id).unwrap().parent.unwrap();
        proof {
            lemma_subtree_top(t, id);
            lemma_parent_outside(t, id);
            lemma_index_of_found(t.nodes[from].children, id);
        }
        let mut f = self.nodes.remove(&from).unwrap();
        let at = find(&f.children, id).unwrap();
        proof {
            lemma_index_of_unique(f.children@, at as int);
        }
        f.children.remove(at);
        self.nodes.insert(from, f);
        let mut p = self.nodes.remove(&parent).unwrap();
        p.children.insert(index, id);
        self.nodes.insert(parent, p);
        let mut n = self.nodes.remove(&id).unwrap();
        n.parent = Some(parent);
        self.nodes.insert(id, n);
        proof {
            let m = t.moved(id, parent, index as int);
            assert(self@.nodes =~= m.nodes);
            lemma_moved_well_formed(t, id, parent, index as int);
            assert forall|x: NodeId| #[trigger] self.nodes@.contains_key(x) implies x
                < self.next by {
                assert(t.nodes.contains_key(x));
            }
        }
    }

    /// Replaces the content of `id` by content of the same kind.
    pub(crate) fn replace(&mut self, id: NodeId, data: NodeData)
        requires
            old(self).wf(),
            old(self)@.contains(id),
            data@.is_folder() == old(self)@.data(id).is_folder(),
            data@.is_toolbar() == old(self)@.data(id).is_toolbar(),
        ensures
            final(self).wf(),
            final(self).next_id() == old(self).next_id(),
            final(self)@ == old(self)@.with_data(id, data@),
    {
        let ghost t = self@;
        let ghost shown = data@;
        let mut n = self.nodes.remove(&id).unwrap();
        n.data = data;
        self.nodes.insert(id, n);
        proof {
            assert(self@.nodes =~= t.with_data(id, shown).nodes);
            lemma_with_data_well_formed(t, id, shown);
        }
    }
}

impl BookmarkArena {
    /// An arena that holds the root folder `id` and nothing else.
    pub(crate) fn with_root(id: NodeId, folder: crate::node::Folder) -> (r: BookmarkArena)
        requires
            id < usize::MAX,
            !folder.is_toolbar,
        ensures
            r.wf(),
            r.next_id() == id + 1,
            r@.root == id,
            r@.nodes == Map::<NodeId, NodeView>::empty().insert(
                id,
                NodeView {
                    parent: None,
                    children: Seq::empty(),
                    data: NodeDataView::Folder(folder@),
                },
            ),
    {
        let mut nodes: HashMap<NodeId, Node> = HashMap::new();
        nodes.insert(id, Node { parent: None, children: Vec::new(), data: NodeData::Folder(folder) });
        let arena = BookmarkArena { nodes, root: id, next: id + 1 };
        proof {
            let t = arena@;
            assert(t.nodes =~= Map::<NodeId, NodeView>::empty().insert(
                id,
                NodeView {
                    parent: None,
                    children: Seq::empty(),
                    data: NodeDataView::Folder(folder@),
                },
            ));
            assert(t.nodes.dom() =~= set![id]);
            assert(t.ranked(|x: NodeId| 0nat));
        }
        arena
    }

    /// Adds a node under the identifier `id`, which is not in use, as the
    /// last child of the folder `parent`.
    pub(crate) fn adopt(&mut self, parent: NodeId, id: NodeId, data: NodeData)
        requires
            old(self).wf(),
            old(self)@.is_folder(parent),
            !old(self)@.contains(id),
            id < usize::MAX,
            data@.is_toolbar() ==> parent == old(self)@.root && !old(self)@.has_toolbar(),
        ensures
            final(self).wf(),
            final(self).next_id() == if old(self).next_id() <= id {
                id + 1
            } else {
                old(self).next_id() as int
            },
            final(self)@ == old(self)@.with_child(
                parent,
                old(self)@.children(parent).len() as int,
                id,
                data@,
            ),
    {
        let ghost t = self@;
        let ghost shown = data@;
        let mut p = self.nodes.remove(&parent).unwrap();
        p.children.push(id);
        self.nodes.insert(parent, p);
        self.nodes.insert(id, Node { parent: Some(parent), children: Vec::new(), data });
        if self.next <= id {
            self.next = id + 1;
        }
        proof {
            let at = t.children(parent).len() as int;
            let n = t.with_child(parent, at, id, shown);
            assert(t.children(parent).push(id) =~= t.children(parent).insert(at, id));
            assert(self@.nodes =~= n.nodes);
            lemma_with_child_well_formed(t, parent, at, id, shown);
            assert forall|x: NodeId| #[trigger] self.nodes@.contains_key(x) implies x
                < self.next by {
                if x != id {
                    assert(t.nodes.contains_key(x));
                }
            }
        }
    }
}

} // verus!
