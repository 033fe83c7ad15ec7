//! The changes that the operations make keep a tree well formed.

use vstd::prelude::*;
use crate::node::NodeDataView;
use crate::seqs::{lemma_insert_fresh, lemma_remove_at, lemma_index_of_found};
use crate::tree::{
    NodeId, TreeView, lemma_subtree_child, lemma_subtree_parent, lemma_subtree_top,
    lemma_parent_outside,
};

verus! {

/// A node that is not in the tree is in no list of children.
pub proof fn lemma_absent_unlisted(t: TreeView, p: NodeId, id: NodeId)
    requires
        t.linked(),
        t.contains(p),
        !t.contains(id),
    ensures
        !t.children(p).contains(id),
{
    if t.children(p).contains(id) {
        let j = t.children(p).index_of(id);
        assert(t.contains(t.children(p)[j]));
    }
}

/// A node is listed by its parent, and by no other node.
pub proof fn lemma_listed_by_parent(t: TreeView, p: NodeId, id: NodeId)
    requires
        t.rooted(),
        t.linked(),
        t.contains(p),
        t.contains(id),
    ensures
        t.children(p).contains(id) <==> t.parent(id) == Some(p),
{
    if t.children(p).contains(id) {
        let j = t.children(p).index_of(id);
        assert(t.parent(t.children(p)[j]) == Some(p));
    }
}

/// Only the root has no parent.
pub proof fn lemma_root_outside(t: TreeView, id: NodeId)
    requires
        t.rooted(),
        t.linked(),
        t.contains(id),
        id != t.root,
    ensures
        !t.in_subtree(id, t.root),
{
    if t.in_subtree(id, t.root) {
        let k = choose|k: nat| t.ancestor(t.root, k) == Some(id);
        assert(k == 0);
    }
}

/// A new childless node under a folder keeps the tree well formed.
pub proof fn lemma_with_child_well_formed(
    t: TreeView,
    parent: NodeId,
    index: int,
    id: NodeId,
    data: NodeDataView,
)
    requires
        t.well_formed(),
        t.is_folder(parent),
        !t.contains(id),
        0 <= index <= t.children(parent).len(),
        data.is_toolbar() ==> parent == t.root && !t.has_toolbar(),
    ensures
        t.with_child(parent, index, id, data).well_formed(),
{
    let n = t.with_child(parent, index, id, data);
    let cs = t.children(parent);
    lemma_absent_unlisted(t, parent, id);
    lemma_insert_fresh(cs, index, id);
    assert(n.rooted());
    assert forall|x: NodeId| #[trigger] n.nodes.contains_key(x) && x != n.root implies (
    n.nodes[x].parent matches Some(p) && n.nodes.contains_key(p) && n.nodes[p].children.contains(
        x,
    )) by {
        if x != id {
            assert(t.nodes.contains_key(x));
        }
    }
    assert forall|p: NodeId, j: int|
        n.nodes.contains_key(p) && 0 <= j < n.nodes[p].children.len() implies n.nodes.contains_key(
        #[trigger] n.nodes[p].children[j],
    ) && n.nodes[n.nodes[p].children[j]].parent == Some(p) by {
        if p == parent {
            if j < index {
                assert(n.nodes[p].children[j] == cs[j]);
            } else if j > index {
                assert(n.nodes[p].children[j] == cs[j - 1]);
            }
        } else if p != id {
            assert(n.nodes[p].children[j] == t.nodes[p].children[j]);
        }
    }
    assert forall|p: NodeId| #[trigger] n.nodes.contains_key(p) implies n.nodes[p].children.no_duplicates() by {
        if p != id && p != parent {
            assert(t.nodes.contains_key(p));
        }
    }
    assert forall|x: NodeId| #[trigger]
        n.nodes.contains_key(x) && !n.nodes[x].data.is_folder() implies n.nodes[x].children.len()
        == 0 by {
        if x != id {
            assert(t.nodes.contains_key(x));
        }
    }
    assert(n.linked());
    let r = t.rank();
    let r2 = |x: NodeId|
        if x == id {
            r(parent) + 1
        } else {
            r(x)
        };
    assert(n.ranked(r2)) by {
        assert forall|x: NodeId| #[trigger] n.nodes.contains_key(x) implies (
        n.nodes[x].parent matches Some(p) ==> r2(p) < r2(x)) by {
            if x != id {
                assert(t.nodes.contains_key(x));
                if t.nodes[x].parent is Some {
                    let p = t.nodes[x].parent->0;
                    if x != t.root {
                        assert(t.nodes.contains_key(p));
                    }
                }
            }
        }
    }
    assert(n.single_toolbar()) by {
        assert forall|x: NodeId| #[trigger]
            n.nodes.contains_key(x) && n.nodes[x].data.is_toolbar() implies n.nodes[x].parent
            == Some(n.root) by {
            if x != id {
                assert(t.nodes.contains_key(x));
            }
        }
        assert forall|a: NodeId, b: NodeId|
            #![trigger n.nodes.contains_key(a), n.nodes.contains_key(b)]
            n.nodes.contains_key(a) && n.nodes[a].data.is_toolbar() && n.nodes.contains_key(b)
                && n.nodes[b].data.is_toolbar() implies a == b by {
            if a != id {
                assert(t.is_toolbar(a));
            }
            if b != id {
                assert(t.is_toolbar(b));
            }
        }
    }
}

/// New content of the same kind keeps the tree well formed.
pub proof fn lemma_with_data_well_formed(t: TreeView, id: NodeId, data: NodeDataView)
    requires
        t.well_formed(),
        t.contains(id),
        data.is_folder() == t.data(id).is_folder(),
        data.is_toolbar() == t.data(id).is_toolbar(),
    ensures
        t.with_data(id, data).well_formed(),
{
    let n = t.with_data(id, data);
    assert(n.nodes.dom() =~= t.nodes.dom());
    assert forall|x: NodeId| #[trigger] n.nodes.contains_key(x) && x != n.root implies (
    n.nodes[x].parent matches Some(p) && n.nodes.contains_key(p) && n.nodes[p].children.contains(
        x,
    )) by {
        assert(t.nodes.contains_key(x));
    }
    assert forall|p: NodeId, j: int|
        n.nodes.contains_key(p) && 0 <= j < n.nodes[p].children.len() implies n.nodes.contains_key(
        #[trigger] n.nodes[p].children[j],
    ) && n.nodes[n.nodes[p].children[j]].parent == Some(p) by {
        assert(n.nodes[p].children[j] == t.nodes[p].children[j]);
    }
    assert forall|p: NodeId| #[trigger] n.nodes.contains_key(p) implies n.nodes[p].children.no_duplicates() by {
        assert(t.nodes.contains_key(p));
    }
    assert forall|x: NodeId| #[trigger]
        n.nodes.contains_key(x) && !n.nodes[x].data.is_folder() implies n.nodes[x].children.len()
        == 0 by {
        assert(t.nodes.contains_key(x));
    }
    assert(n.linked());
    let r = t.rank();
    assert(n.ranked(r)) by {
        assert forall|x: NodeId| #[trigger] n.nodes.contains_key(x) implies (
        n.nodes[x].parent matches Some(p) ==> r(p) < r(x)) by {
            assert(t.nodes.contains_key(x));
        }
    }
    assert(n.single_toolbar()) by {
        assert forall|x: NodeId| #[trigger]
            n.nodes.contains_key(x) && n.nodes[x].data.is_toolbar() implies n.nodes[x].parent
            == Some(n.root) by {
            assert(t.nodes.contains_key(x));
        }
        assert forall|a: NodeId, b: NodeId|
            #![trigger n.nodes.contains_key(a), n.nodes.contains_key(b)]
            n.nodes.contains_key(a) && n.nodes[a].data.is_toolbar() && n.nodes.contains_key(b)
                && n.nodes[b].data.is_toolbar() implies a == b by {
            assert(t.nodes.contains_key(a) && t.nodes.contains_key(b));
        }
    }
}

/// Without one of its subtrees, other than the whole, the tree is well formed.
pub proof fn lemma_without_subtree_well_formed(t: TreeView, id: NodeId)
    requires
        t.well_formed(),
        t.contains(id),
        id != t.root,
    ensures
        t.without_subtree(id).well_formed(),
        !t.without_subtree(id).contains(id),
{
    let n = t.without_subtree(id);
    let p = t.parent(id)->0;
    assert(t.nodes.contains_key(id));
    let cs = t.children(p);
    lemma_index_of_found(cs, id);
    let i0 = cs.index_of(id);
    lemma_remove_at(cs, i0);
    lemma_subtree_top(t, id);
    lemma_parent_outside(t, id);
    lemma_root_outside(t, id);
    assert(n.nodes.dom().subset_of(t.nodes.dom()));
    vstd::set_lib::lemma_set_subset_finite(t.nodes.dom(), n.nodes.dom());
    assert(n.nodes.contains_key(p));
    assert(n.rooted());
    assert forall|x: NodeId| #[trigger] n.nodes.contains_key(x) && x != n.root implies (
    n.nodes[x].parent matches Some(q) && n.nodes.contains_key(q) && n.nodes[q].children.contains(
        x,
    )) by {
        assert(t.nodes.contains_key(x));
        let q = t.nodes[x].parent->0;
        if t.in_subtree(id, q) {
            lemma_subtree_child(t, id, x);
        }
    }
    assert forall|q: NodeId, j: int|
        n.nodes.contains_key(q) && 0 <= j < n.nodes[q].children.len() implies n.nodes.contains_key(
        #[trigger] n.nodes[q].children[j],
    ) && n.nodes[n.nodes[q].children[j]].parent == Some(q) by {
        let c = n.nodes[q].children[j];
        assert(t.nodes.contains_key(q));
        if q == p {
            let j0 = if j < i0 { j } else { j + 1 };
            assert(c == cs[j0]);
            assert(c != id);
        } else {
            assert(c == t.nodes[q].children[j]);
            assert(c != id);
        }
        assert(t.nodes.contains_key(c) && t.nodes[c].parent == Some(q));
        if t.in_subtree(id, c) {
            lemma_subtree_parent(t, id, c);
        }
    }
    assert forall|q: NodeId| #[trigger] n.nodes.contains_key(q) implies n.nodes[q].children.no_duplicates() by {
        assert(t.nodes.contains_key(q));
    }
    assert forall|x: NodeId| #[trigger]
        n.nodes.contains_key(x) && !n.nodes[x].data.is_folder() implies n.nodes[x].children.len()
        == 0 by {
        assert(t.nodes.contains_key(x));
        if x == p {
            assert(cs.len() > 0);
        }
    }
    assert(n.linked());
    let r = t.rank();
    assert(n.ranked(r)) by {
        assert forall|x: NodeId| #[trigger] n.nodes.contains_key(x) implies (
        n.nodes[x].parent matches Some(q) ==> r(q) < r(x)) by {
            assert(t.nodes.contains_key(x));
        }
    }
    assert(n.single_toolbar()) by {
        assert forall|x: NodeId| #[trigger]
            n.nodes.contains_key(x) && n.nodes[x].data.is_toolbar() implies n.nodes[x].parent
            == Some(n.root) by {
            assert(t.nodes.contains_key(x));
        }
        assert forall|a: NodeId, b: NodeId|
            #![trigger n.nodes.contains_key(a), n.nodes.contains_key(b)]
            n.nodes.contains_key(a) && n.nodes[a].data.is_toolbar() && n.nodes.contains_key(b)
                && n.nodes[b].data.is_toolbar() implies a == b by {
            assert(t.nodes.contains_key(a) && t.nodes.contains_key(b));
        }
    }
}

/// Moving a subtree to a folder outside of it keeps the tree well formed.
pub proof fn lemma_moved_well_formed(t: TreeView, id: NodeId, parent: NodeId, index: int)
    requires
        t.well_formed(),
        t.contains(id),
        id != t.root,
        !t.is_toolbar(id),
        t.is_folder(parent),
        !t.in_subtree(id, parent),
        0 <= index <= t.lifted(id).children(parent).len(),
    ensures
        t.moved(id, parent, index).well_formed(),
        t.moved(id, parent, index).nodes.dom() == t.nodes.dom(),
{
    let l = t.lifted(id);
    let n = t.moved(id, parent, index);
    let from = t.parent(id)->0;
    assert(t.nodes.contains_key(id));
    let cs = t.children(from);
    lemma_index_of_found(cs, id);
    let i0 = cs.index_of(id);
    lemma_remove_at(cs, i0);
    lemma_subtree_top(t, id);
    lemma_parent_outside(t, id);
    assert(from != id);
    assert(parent != id);
    let ls = l.children(parent);
    assert(!ls.contains(id)) by {
        if parent != from {
            lemma_listed_by_parent(t, parent, id);
        }
    }
    assert(ls.no_duplicates()) by {
        assert(t.nodes.contains_key(parent));
    }
    lemma_insert_fresh(ls, index, id);
    assert(n.nodes.dom() =~= t.nodes.dom());
    assert(n.nodes[id].parent == Some(parent));
    assert(n.nodes[id].children == t.nodes[id].children);
    assert(n.nodes[id].data == t.nodes[id].data);
    assert(n.nodes[parent].children == ls.insert(index, id));
    assert(forall|x: NodeId| x != id ==> n.nodes[x].parent == t.nodes[x].parent);
    assert(forall|x: NodeId| n.nodes[x].data == t.nodes[x].data);
    assert(forall|x: NodeId| x != from && x != parent ==> n.nodes[x].children == t.nodes[x].children);
    assert(from != parent ==> n.nodes[from].children == cs.remove(i0));
    assert(forall|x: NodeId, y: NodeId|
        x != parent && y != id && #[trigger] t.nodes[x].children.contains(y)
            ==> #[trigger] n.nodes[x].children.contains(y));
    assert(forall|y: NodeId|
        y != id && t.nodes[parent].children.contains(y) ==> #[trigger] n.nodes[parent].children.contains(
            y,
        ));
    assert(n.rooted());
    assert forall|x: NodeId| #[trigger] n.nodes.contains_key(x) && x != n.root implies (
    n.nodes[x].parent matches Some(q) && n.nodes.contains_key(q) && n.nodes[q].children.contains(
        x,
    )) by {
        assert(t.nodes.contains_key(x));
        if x != id {
            let q = t.nodes[x].parent->0;
            assert(t.nodes[q].children.contains(x));
        }
    }
    assert forall|q: NodeId, j: int|
        n.nodes.contains_key(q) && 0 <= j < n.nodes[q].children.len() implies n.nodes.contains_key(
        #[trigger] n.nodes[q].children[j],
    ) && n.nodes[n.nodes[q].children[j]].parent == Some(q) by {
        let c = n.nodes[q].children[j];
        assert(t.nodes.contains_key(q));
        assert(n.nodes[q].children.contains(c));
        if c != id {
            assert(t.nodes[q].children.contains(c)) by {
                if q == parent {
                    assert(ls.contains(c));
                }
            }
            let j0 = t.nodes[q].children.index_of(c);
            assert(t.nodes.contains_key(t.nodes[q].children[j0]));
        } else {
            assert(q == parent) by {
                if q != parent {
                    if q == from {
                    } else {
                        lemma_listed_by_parent(t, q, id);
                    }
                }
            }
        }
    }
    assert forall|q: NodeId| #[trigger] n.nodes.contains_key(q) implies n.nodes[q].children.no_duplicates() by {
        assert(t.nodes.contains_key(q));
    }
    assert forall|x: NodeId| #[trigger]
        n.nodes.contains_key(x) && !n.nodes[x].data.is_folder() implies n.nodes[x].children.len()
        == 0 by {
        assert(t.nodes.contains_key(x));
        if x == from {
            assert(cs.len() > 0);
        }
    }
    assert(n.linked());
    let r = t.rank();
    let lift = r(parent) + 1;
    let r2 = |x: NodeId|
        if t.in_subtree(id, x) {
            r(x) + lift
        } else {
            r(x)
        };
    assert(n.ranked(r2)) by {
        assert forall|x: NodeId| #[trigger] n.nodes.contains_key(x) implies (
        n.nodes[x].parent matches Some(q) ==> r2(q) < r2(x)) by {
            assert(t.nodes.contains_key(x));
            if x == id {
            } else if t.in_subtree(id, x) {
                lemma_subtree_parent(t, id, x);
            } else if t.nodes[x].parent is Some {
                let q = t.nodes[x].parent->0;
                if t.in_subtree(id, q) {
                    lemma_subtree_child(t, id, x);
                }
            }
        }
    }
    assert(n.single_toolbar()) by {
        assert forall|x: NodeId| #[trigger]
            n.nodes.contains_key(x) && n.nodes[x].data.is_toolbar() implies n.nodes[x].parent
            == Some(n.root) by {
            assert(t.nodes.contains_key(x));
        }
        assert forall|a: NodeId, b: NodeId|
            #![trigger n.nodes.contains_key(a), n.nodes.contains_key(b)]
            n.nodes.contains_key(a) && n.nodes[a].data.is_toolbar() && n.nodes.contains_key(b)
                && n.nodes[b].data.is_toolbar() implies a == b by {
            assert(t.nodes.contains_key(a) && t.nodes.contains_key(b));
        }
    }
}

} // verus!
