//! The mathematical model of a bookmark tree, and what its shape implies.
//!
//! A [`TreeView`] maps identifiers to node records. Each record names the
//! node's parent and lists its children in order. The contracts of the arena
//! are stated over this model.

use vstd::prelude::*;
use crate::node::NodeDataView;

verus! {

/// The handle of a node. It stays the same while the node is in the tree.
pub type NodeId = usize;

/// Where a new node goes among the children of a given parent.
#[derive(Debug, Clone, Copy, PartialEq, Eq)]
pub enum Position {
    /// After the last child.
    End,
    /// Directly before the named child.
    Before(NodeId),
    /// Directly after the named child.
    After(NodeId),
    /// Before the first child.
    FirstChild,
}

/// Where a node that is already in the tree is moved to.
#[derive(Debug, Clone, Copy, PartialEq, Eq)]
pub enum Destination {
    /// After the last child of the named folder.
    End(NodeId),
    /// Directly before the named node, under that node's parent.
    Before(NodeId),
    /// Directly after the named node, under that node's parent.
    After(NodeId),
    /// Before the first child of the named folder.
    FirstChild(NodeId),
}

/// One record of the model.
pub struct NodeView {
    pub parent: Option<NodeId>,
    pub children: Seq<NodeId>,
    pub data: NodeDataView,
}

/// The model of a whole tree.
#[verifier::ext_equal]
pub struct TreeView {
    pub root: NodeId,
    pub nodes: Map<NodeId, NodeView>,
}

/// The index at which a position lies in a list of siblings, if the sibling
/// that the position names is in the list.
pub open spec fn slot(siblings: Seq<NodeId>, position: Position) -> Option<int> {
    match position {
        Position::FirstChild => Some(0),
        Position::End => Some(siblings.len() as int),
        Position::Before(s) => if siblings.contains(s) {
            Some(siblings.index_of(s))
        } else {
            None
        },
        Position::After(s) => if siblings.contains(s) {
            Some(siblings.index_of(s) + 1)
        } else {
            None
        },
    }
}

impl TreeView {
    #[verifier::inline]
    pub open spec fn contains(self, id: NodeId) -> bool {
        self.nodes.contains_key(id)
    }

    #[verifier::inline]
    pub open spec fn parent(self, id: NodeId) -> Option<NodeId> {
        self.nodes[id].parent
    }

    #[verifier::inline]
    pub open spec fn children(self, id: NodeId) -> Seq<NodeId> {
        self.nodes[id].children
    }

    #[verifier::inline]
    pub open spec fn data(self, id: NodeId) -> NodeDataView {
        self.nodes[id].data
    }

    /// The node is in the tree and is a folder.
    pub open spec fn is_folder(self, id: NodeId) -> bool {
        self.contains(id) && self.data(id).is_folder()
    }

    /// The node is in the tree and is the toolbar folder.
    pub open spec fn is_toolbar(self, id: NodeId) -> bool {
        self.contains(id) && self.data(id).is_toolbar()
    }

    /// Some folder of the tree is marked as the toolbar folder.
    pub open spec fn has_toolbar(self) -> bool {
        exists|id: NodeId| self.is_toolbar(id)
    }

    /// The toolbar folder, where there is one.
    pub open spec fn toolbar(self) -> NodeId {
        choose|id: NodeId| self.is_toolbar(id)
    }

    /// The root is a folder without a parent, and not the toolbar folder.
    pub open spec fn rooted(self) -> bool {
        &&& self.contains(self.root)
        &&& self.parent(self.root) is None
        &&& self.data(self.root) is Folder
        &&& !self.data(self.root).is_toolbar()
    }

    /// Parent links and child lists agree, no child is listed twice, and only
    /// folders have children.
    pub open spec fn linked(self) -> bool {
        &&& forall|id: NodeId| #[trigger]
            self.nodes.contains_key(id) && id != self.root ==> (self.nodes[id].parent matches Some(
                p,
            ) && self.nodes.contains_key(p) && self.nodes[p].children.contains(id))
        &&& forall|p: NodeId, j: int|
            self.nodes.contains_key(p) && 0 <= j < self.nodes[p].children.len()
                ==> self.nodes.contains_key(#[trigger] self.nodes[p].children[j])
                && self.nodes[self.nodes[p].children[j]].parent == Some(p)
        &&& forall|p: NodeId| #[trigger]
            self.nodes.contains_key(p) ==> self.nodes[p].children.no_duplicates()
        &&& forall|id: NodeId| #[trigger]
            self.nodes.contains_key(id) && !self.nodes[id].data.is_folder()
                ==> self.nodes[id].children.len() == 0
    }

    /// `rank` grows strictly from each parent to its children.
    pub open spec fn ranked(self, rank: spec_fn(NodeId) -> nat) -> bool {
        forall|id: NodeId| #[trigger]
            self.nodes.contains_key(id) ==> (self.nodes[id].parent matches Some(p) ==> rank(p)
                < rank(id))
    }

    /// No node is its own ancestor: some rank grows along every parent link.
    pub open spec fn acyclic(self) -> bool {
        exists|rank: spec_fn(NodeId) -> nat| self.ranked(rank)
    }

    /// A rank that witnesses [`Self::acyclic`].
    pub open spec fn rank(self) -> spec_fn(NodeId) -> nat {
        choose|rank: spec_fn(NodeId) -> nat| self.ranked(rank)
    }

    /// At most one folder is the toolbar folder, and it is a child of the root.
    pub open spec fn single_toolbar(self) -> bool {
        &&& forall|id: NodeId| #[trigger]
            self.nodes.contains_key(id) && self.nodes[id].data.is_toolbar() ==> self.nodes[id].parent
                == Some(self.root)
        &&& forall|a: NodeId, b: NodeId|
            #![trigger self.nodes.contains_key(a), self.nodes.contains_key(b)]
            self.nodes.contains_key(a) && self.nodes[a].data.is_toolbar()
                && self.nodes.contains_key(b) && self.nodes[b].data.is_toolbar() ==> a == b
    }

    /// The shape that every operation keeps.
    pub open spec fn well_formed(self) -> bool {
        &&& self.nodes.dom().finite()
        &&& self.rooted()
        &&& self.linked()
        &&& self.acyclic()
        &&& self.single_toolbar()
    }

    /// The node reached from `id` by `steps` parent links, if the chain is
    /// that long.
    pub open spec fn ancestor(self, id: NodeId, steps: nat) -> Option<NodeId>
        decreases steps,
    {
        if !self.contains(id) {
            None
        } else if steps == 0 {
            Some(id)
        } else {
            match self.parent(id) {
                Some(p) => self.ancestor(p, (steps - 1) as nat),
                None => None,
            }
        }
    }

    /// `id` is `top` or lies below it.
    pub open spec fn in_subtree(self, top: NodeId, id: NodeId) -> bool {
        exists|steps: nat| self.ancestor(id, steps) == Some(top)
    }

    /// The tree with a new childless node `id` at `index` among the children
    /// of `parent`.
    pub open spec fn with_child(
        self,
        parent: NodeId,
        index: int,
        id: NodeId,
        data: NodeDataView,
    ) -> TreeView {
        TreeView {
            root: self.root,
            nodes: self.nodes.insert(
                parent,
                NodeView {
                    parent: self.nodes[parent].parent,
                    children: self.nodes[parent].children.insert(index, id),
                    data: self.nodes[parent].data,
                },
            ).insert(id, NodeView { parent: Some(parent), children: Seq::empty(), data }),
        }
    }

    /// The tree with the content of `id` replaced.
    pub open spec fn with_data(self, id: NodeId, data: NodeDataView) -> TreeView {
        TreeView {
            root: self.root,
            nodes: self.nodes.insert(
                id,
                NodeView {
                    parent: self.nodes[id].parent,
                    children: self.nodes[id].children,
                    data,
                },
            ),
        }
    }

    /// The tree without `id` and everything below it.
    pub open spec fn without_subtree(self, id: NodeId) -> TreeView {
        let p = self.nodes[id].parent->0;
        TreeView {
            root: self.root,
            nodes: Map::new(
                |x: NodeId| self.nodes.contains_key(x) && !self.in_subtree(id, x),
                |x: NodeId|
                    if x == p {
                        NodeView {
                            parent: self.nodes[p].parent,
                            children: self.nodes[p].children.remove(
                                self.nodes[p].children.index_of(id),
                            ),
                            data: self.nodes[p].data,
                        }
                    } else {
                        self.nodes[x]
                    },
            ),
        }
    }

    /// The tree with `id` taken out of its parent's list of children. The
    /// node's own record, and all below it, stay as they are.
    pub open spec fn lifted(self, id: NodeId) -> TreeView {
        let p = self.nodes[id].parent->0;
        TreeView {
            root: self.root,
            nodes: self.nodes.insert(
                p,
                NodeView {
                    parent: self.nodes[p].parent,
                    children: self.nodes[p].children.remove(self.nodes[p].children.index_of(id)),
                    data: self.nodes[p].data,
                },
            ),
        }
    }

    /// The tree with the lifted node `id` put at `index` among the children of
    /// `parent`.
    pub open spec fn placed(self, id: NodeId, parent: NodeId, index: int) -> TreeView {
        let listed = self.nodes.insert(
            parent,
            NodeView {
                parent: self.nodes[parent].parent,
                children: self.nodes[parent].children.insert(index, id),
                data: self.nodes[parent].data,
            },
        );
        TreeView {
            root: self.root,
            nodes: listed.insert(
                id,
                NodeView {
                    parent: Some(parent),
                    children: listed[id].children,
                    data: listed[id].data,
                },
            ),
        }
    }

    /// The tree with `id`, and all below it, moved to `index` among the
    /// children of `parent`. The index counts the children of `parent` with
    /// `id` taken out.
    pub open spec fn moved(self, id: NodeId, parent: NodeId, index: int) -> TreeView {
        self.lifted(id).placed(id, parent, index)
    }
}

/// A node on a parent chain is in the tree.
pub proof fn lemma_ancestor_contains(t: TreeView, id: NodeId, steps: nat)
    requires
        t.ancestor(id, steps) is Some,
    ensures
        t.contains(id),
        t.contains(t.ancestor(id, steps)->0),
    decreases steps,
{
    if steps > 0 {
        lemma_ancestor_contains(t, t.parent(id)->0, (steps - 1) as nat);
    }
}

/// A parent chain can be continued by one link at its upper end.
pub proof fn lemma_ancestor_extend(t: TreeView, id: NodeId, steps: nat)
    requires
        t.ancestor(id, steps) matches Some(a) && t.parent(a) matches Some(p) && t.contains(p),
    ensures
        t.ancestor(id, steps + 1) == t.parent(t.ancestor(id, steps)->0),
    decreases steps,
{
    if steps == 0 {
        assert(t.ancestor(t.parent(id)->0, 0) == t.parent(id));
    } else {
        lemma_ancestor_extend(t, t.parent(id)->0, (steps - 1) as nat);
    }
}

/// The last link of a parent chain leads from a node of the tree to its
/// parent.
pub proof fn lemma_ancestor_last(t: TreeView, id: NodeId, steps: nat)
    requires
        steps > 0,
        t.ancestor(id, steps) is Some,
    ensures
        t.ancestor(id, (steps - 1) as nat) matches Some(e) && t.contains(e) && t.parent(e)
            == t.ancestor(id, steps),
    decreases steps,
{
    if steps == 1 {
        assert(t.ancestor(t.parent(id)->0, 0) is Some);
    } else {
        lemma_ancestor_last(t, t.parent(id)->0, (steps - 1) as nat);
    }
}

/// The nodes that a parent chain of `steps` links passes, as numbers.
pub open spec fn chain(t: TreeView, id: NodeId, steps: nat) -> Set<int>
    decreases steps,
{
    if steps == 0 {
        set![id as int]
    } else {
        chain(t, id, (steps - 1) as nat).insert(t.ancestor(id, steps)->0 as int)
    }
}

/// A parent chain passes each node once: in a tree without cycles a chain
/// of `steps` links passes `steps + 1` nodes.
pub proof fn lemma_chain(t: TreeView, rank: spec_fn(NodeId) -> nat, id: NodeId, steps: nat)
    requires
        t.ranked(rank),
        t.ancestor(id, steps) is Some,
    ensures
        chain(t, id, steps).finite(),
        chain(t, id, steps).len() == steps + 1,
        forall|e: int| #[trigger]
            chain(t, id, steps).contains(e) ==> 0 <= e <= usize::MAX && t.nodes.contains_key(
                e as usize,
            ) && rank(e as usize) >= rank(t.ancestor(id, steps)->0),
    decreases steps,
{
    if steps > 0 {
        lemma_ancestor_last(t, id, steps);
        lemma_chain(t, rank, id, (steps - 1) as nat);
        let last = t.ancestor(id, (steps - 1) as nat)->0;
        let top = t.ancestor(id, steps)->0;
        assert(t.nodes.contains_key(last));
        assert(rank(top) < rank(last));
        lemma_ancestor_contains(t, id, steps);
    }
}

/// In a tree without cycles whose identifiers lie below `limit`, a parent
/// chain has fewer than `limit` links.
pub proof fn lemma_chain_short(t: TreeView, id: NodeId, steps: nat, limit: nat)
    requires
        t.acyclic(),
        forall|y: NodeId| #[trigger] t.nodes.contains_key(y) ==> y < limit,
        t.ancestor(id, steps) is Some,
    ensures
        steps < limit,
{
    lemma_chain(t, t.rank(), id, steps);
    let passed = chain(t, id, steps);
    let all = vstd::set_lib::set_int_range(0, limit as int);
    vstd::set_lib::lemma_int_range(0, limit as int);
    assert(passed.subset_of(all)) by {
        assert forall|e: int| passed.contains(e) implies all.contains(e) by {
            assert(t.nodes.contains_key(e as usize));
        }
    }
    vstd::set_lib::lemma_len_subset(passed, all);
}

/// A parent chain ends where a node has no parent.
pub proof fn lemma_ancestor_stops(t: TreeView, id: NodeId, steps: nat, more: nat)
    requires
        t.ancestor(id, steps) matches Some(a) && t.parent(a) is None,
        more > steps,
    ensures
        t.ancestor(id, more) is None,
    decreases steps,
{
    if steps == 0 {
    } else {
        lemma_ancestor_stops(t, t.parent(id)->0, (steps - 1) as nat, (more - 1) as nat);
    }
}

/// Along a parent chain the rank falls by at least one per link.
pub proof fn lemma_ancestor_rank(t: TreeView, rank: spec_fn(NodeId) -> nat, id: NodeId, steps: nat)
    requires
        t.ranked(rank),
        t.ancestor(id, steps) is Some,
    ensures
        rank(t.ancestor(id, steps)->0) + steps <= rank(id),
    decreases steps,
{
    if steps > 0 {
        lemma_ancestor_rank(t, rank, t.parent(id)->0, (steps - 1) as nat);
    }
}

/// A child of a node of a subtree is in that subtree.
pub proof fn lemma_subtree_child(t: TreeView, top: NodeId, id: NodeId)
    requires
        t.contains(id),
        t.parent(id) matches Some(p) && t.in_subtree(top, p),
    ensures
        t.in_subtree(top, id),
{
    let p = t.parent(id)->0;
    let k = choose|k: nat| t.ancestor(p, k) == Some(top);
    assert(t.ancestor(id, k + 1) == Some(top));
}

/// A node of a subtree, other than its top, has its parent in that subtree.
pub proof fn lemma_subtree_parent(t: TreeView, top: NodeId, id: NodeId)
    requires
        t.in_subtree(top, id),
        id != top,
    ensures
        t.contains(id),
        t.parent(id) matches Some(p) && t.in_subtree(top, p),
{
    let k = choose|k: nat| t.ancestor(id, k) == Some(top);
    assert(k > 0);
    assert(t.ancestor(t.parent(id)->0, (k - 1) as nat) == Some(top));
}

/// Every node of the tree is in its own subtree, and nothing else has it on top.
pub proof fn lemma_subtree_top(t: TreeView, id: NodeId)
    requires
        t.contains(id),
    ensures
        t.in_subtree(id, id),
{
    assert(t.ancestor(id, 0) == Some(id));
}

/// In a tree without cycles, a node's parent is not below the node.
pub proof fn lemma_parent_outside(t: TreeView, id: NodeId)
    requires
        t.acyclic(),
        t.contains(id),
        t.parent(id) is Some,
    ensures
        !t.in_subtree(id, t.parent(id)->0),
{
    let p = t.parent(id)->0;
    if t.in_subtree(id, p) {
        let k = choose|k: nat| t.ancestor(p, k) == Some(id);
        lemma_ancestor_rank(t, t.rank(), p, k);
    }
}

/// The nodes of a subtree are nodes of the tree.
pub proof fn lemma_subtree_contains(t: TreeView, top: NodeId, id: NodeId)
    requires
        t.in_subtree(top, id),
    ensures
        t.contains(id),
        t.contains(top),
{
    let k = choose|k: nat| t.ancestor(id, k) == Some(top);
    lemma_ancestor_contains(t, id, k);
}

} // verus!
