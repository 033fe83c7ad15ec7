//! Writing a tree as a document and reading a document as a tree undo each
//! other: a tree read back from its snapshot is the tree that was written,
//! and a tree read from a document shows what the document says.

use vstd::prelude::*;
use crate::arena::BookmarkArena;
use crate::json::JsonView;
use crate::load::{
    doc_children, doc_data, doc_id, doc_ids, grown, grown_all, loaded, planted, shown, shown_all,
};
use crate::serialize::lemma_documents_len;
use crate::shape::lemma_with_child_well_formed;
use crate::tree::{
    NodeId, TreeView, lemma_ancestor_last, lemma_chain_short, lemma_parent_outside,
    lemma_subtree_child, lemma_subtree_contains, lemma_subtree_top,
};

verus! {

/// `part` holds a part of `whole`: each of its nodes is a node of `whole`
/// with the same parent and content, and lists the first of the children
/// that the node has in `whole`.
pub open spec fn part_of(part: TreeView, whole: TreeView) -> bool {
    &&& part.root == whole.root
    &&& forall|y: NodeId| #[trigger]
        part.nodes.contains_key(y) ==> {
            &&& whole.nodes.contains_key(y)
            &&& part.nodes[y].parent == whole.nodes[y].parent
            &&& part.nodes[y].data == whole.nodes[y].data
            &&& part.nodes[y].children.len() <= whole.nodes[y].children.len()
            &&& part.nodes[y].children == whole.nodes[y].children.subrange(
                0,
                part.nodes[y].children.len() as int,
            )
        }
}

/// No identifier of the tree is the largest number that one can be.
pub open spec fn bounded(t: TreeView) -> bool {
    forall|y: NodeId| #[trigger] t.nodes.contains_key(y) ==> y < usize::MAX
}

/// A list of documents holds the document of each node, in order.
pub proof fn lemma_documents_index(t: TreeView, ids: Seq<NodeId>, depth: nat, count: nat, i: int)
    requires
        0 <= i < count <= ids.len(),
    ensures
        t.documents(ids, depth, count)[i] == t.document(ids[i], depth),
    decreases count,
{
    lemma_documents_len(t, ids, depth, (count - 1) as nat);
    if i < count - 1 {
        lemma_documents_index(t, ids, depth, (count - 1) as nat, i);
    }
}

/// Two trees give the same list of documents for nodes that have the same
/// document in both.
pub proof fn lemma_documents_same(
    a: TreeView,
    b: TreeView,
    ids: Seq<NodeId>,
    depth: nat,
    count: nat,
)
    requires
        count <= ids.len(),
        forall|i: int| 0 <= i < count ==> a.document(#[trigger] ids[i], depth) == b.document(
            ids[i],
            depth,
        ),
    ensures
        a.documents(ids, depth, count) == b.documents(ids, depth, count),
    decreases count,
{
    if count > 0 {
        lemma_documents_same(a, b, ids, depth, (count - 1) as nat);
        assert(a.document(ids[count - 1], depth) == b.document(ids[count - 1], depth));
    }
}

/// A node below a node of a subtree is in that subtree.
pub proof fn lemma_subtree_nested(t: TreeView, top: NodeId, mid: NodeId, id: NodeId, steps: nat)
    requires
        t.in_subtree(top, mid),
        t.ancestor(id, steps) == Some(mid),
    ensures
        t.in_subtree(top, id),
    decreases steps,
{
    if steps > 0 {
        lemma_subtree_nested(t, top, mid, t.parent(id)->0, (steps - 1) as nat);
        lemma_subtree_child(t, top, id);
    }
}

/// The document of a node depends on the records of the node's subtree
/// alone.
pub proof fn lemma_document_frame(a: TreeView, b: TreeView, id: NodeId, depth: nat)
    requires
        a.linked(),
        a.contains(id),
        forall|y: NodeId| #[trigger]
            a.in_subtree(id, y) ==> b.nodes.contains_key(y) && b.nodes[y] == a.nodes[y],
    ensures
        b.document(id, depth) == a.document(id, depth),
    decreases depth,
{
    lemma_subtree_top(a, id);
    assert(b.nodes[id] == a.nodes[id]);
    if depth > 0 {
        let ids = a.children(id);
        assert forall|i: int| 0 <= i < ids.len() implies b.document(
            #[trigger] ids[i],
            (depth - 1) as nat,
        ) == a.document(ids[i], (depth - 1) as nat) by {
            let c = ids[i];
            assert(a.nodes.contains_key(a.nodes[id].children[i]));
            lemma_subtree_child(a, id, c);
            assert forall|y: NodeId| #[trigger] a.in_subtree(c, y) implies b.nodes.contains_key(y)
                && b.nodes[y] == a.nodes[y] by {
                let steps = choose|steps: nat| a.ancestor(y, steps) == Some(c);
                lemma_subtree_nested(a, id, c, y, steps);
            }
            lemma_document_frame(a, b, c, (depth - 1) as nat);
        }
        lemma_documents_same(b, a, ids, (depth - 1) as nat, ids.len());
    }
}

/// What is read back from the document of a node: the node's identifier,
/// its content, and the documents of its children.
pub proof fn lemma_document_read(t: TreeView, id: NodeId, depth: nat)
    requires
        id < usize::MAX,
    ensures
        doc_id(t.document(id, depth)) == Some(id),
        doc_data(t.document(id, depth)) == Some(t.data(id)),
        doc_children(t.document(id, depth)) == if t.data(id) is Folder && depth > 0 {
            t.documents(t.children(id), (depth - 1) as nat, t.children(id).len())
        } else {
            Seq::<JsonView>::empty()
        },
{
    reveal_strlit("id");
    reveal_strlit("title");
    reveal_strlit("url");
    reveal_strlit("is_open");
    reveal_strlit("is_toolbar");
    reveal_strlit("children");
    assert("id"@ != "title"@ && "id"@ != "url"@ && "id"@ != "is_open"@ && "id"@ != "is_toolbar"@
        && "id"@ != "children"@) by {
        assert("id"@.len() == 2);
    }
    assert("title"@ != "url"@ && "title"@ != "is_open"@ && "title"@ != "is_toolbar"@ && "title"@
        != "children"@) by {
        assert("title"@.len() == 5);
    }
    assert("url"@ != "is_open"@ && "url"@ != "is_toolbar"@ && "url"@ != "children"@) by {
        assert("url"@.len() == 3);
    }
    assert("is_open"@ != "is_toolbar"@ && "is_open"@ != "children"@) by {
        assert("is_open"@.len() == 7);
    }
    assert("is_toolbar"@ != "children"@) by {
        assert("is_toolbar"@.len() == 10);
    }
    assert(id as u64 as usize == id);
}

/// Every node of `t` that lies at most `depth` links below `top` is in
/// `copy`, and those that lie less than `depth` links below it have in `copy`
/// the record that they have in `t`.
pub open spec fn shown_below(t: TreeView, copy: TreeView, top: NodeId, depth: nat) -> bool {
    forall|y: NodeId, steps: nat|
        #[trigger] t.ancestor(y, steps) == Some(top) && steps <= depth ==> copy.nodes.contains_key(
            y,
        ) && (steps < depth ==> copy.nodes[y] == t.nodes[y])
}

/// What holds of the tree `after` that has taken the node `c`, with what the
/// document shows below it, as the next child of `x` in the part `before` of
/// the tree `t`.
pub open spec fn copied(
    t: TreeView,
    before: TreeView,
    after: TreeView,
    x: NodeId,
    c: NodeId,
    depth: nat,
) -> bool {
    &&& after.well_formed()
    &&& part_of(after, t)
    &&& after.contains(c)
    &&& after.children(x) == before.children(x).push(c)
    &&& forall|y: NodeId| #[trigger] before.nodes.contains_key(y) ==> after.nodes.contains_key(y)
    &&& forall|y: NodeId|
        before.nodes.contains_key(y) && y != x ==> #[trigger] after.nodes[y] == before.nodes[y]
    &&& after.document(c, depth) == t.document(c, depth)
    &&& shown_below(t, after, c, depth)
}

/// What holds of the tree `after` that has taken the first `count` children
/// of `x`, with what their documents show below them, into the part `before`
/// of the tree `t`.
pub open spec fn copied_all(
    t: TreeView,
    before: TreeView,
    after: TreeView,
    x: NodeId,
    depth: nat,
    count: nat,
) -> bool {
    &&& after.well_formed()
    &&& part_of(after, t)
    &&& after.children(x) == t.children(x).subrange(0, count as int)
    &&& forall|y: NodeId| #[trigger] before.nodes.contains_key(y) ==> after.nodes.contains_key(y)
    &&& forall|y: NodeId|
        before.nodes.contains_key(y) && y != x ==> #[trigger] after.nodes[y] == before.nodes[y]
    &&& forall|i: int|
        0 <= i < count ==> after.document(#[trigger] t.children(x)[i], depth) == t.document(
            t.children(x)[i],
            depth,
        )
    &&& forall|i: int|
        0 <= i < count ==> shown_below(t, after, #[trigger] t.children(x)[i], depth)
}

/// The document of the next child of a node is accepted by a part of the
/// tree, and the part then shows for that child the document it was given.
pub proof fn lemma_copy_node(t: TreeView, u: TreeView, x: NodeId, c: NodeId, depth: nat)
    requires
        t.well_formed(),
        bounded(t),
        u.well_formed(),
        part_of(u, t),
        u.contains(x),
        u.children(x).len() < t.children(x).len(),
        c == t.children(x)[u.children(x).len() as int],
    ensures
        grown(u, x, t.document(c, depth)) is Some,
        copied(t, u, grown(u, x, t.document(c, depth))->0, x, c, depth),
    decreases depth, 0nat,
{
    let k = u.children(x).len() as int;
    let doc = t.document(c, depth);
    assert(t.nodes.contains_key(x));
    assert(t.nodes.contains_key(t.nodes[x].children[k]));
    assert(t.nodes[c].parent == Some(x));
    lemma_document_read(t, c, depth);
    let data = t.data(c);
    // The child is new to the part: the part lists only earlier children of `x`.
    assert(!u.contains(c)) by {
        if u.nodes.contains_key(c) {
            assert(c != u.root);
            assert(u.nodes[x].children.contains(c));
            let j = u.nodes[x].children.index_of(c);
            assert(t.nodes[x].children[j] == c);
        }
    }
    assert(u.is_folder(x)) by {
        assert(u.nodes.contains_key(x));
        if !t.nodes[x].data.is_folder() {
            assert(t.nodes[x].children.len() == 0);
        }
    }
    assert(data.is_toolbar() ==> x == u.root && !u.has_toolbar()) by {
        if data.is_toolbar() {
            if u.has_toolbar() {
                let b = u.toolbar();
                assert(u.nodes.contains_key(b));
                assert(t.nodes.contains_key(b) && t.nodes.contains_key(c));
            }
        }
    }
    let v0 = u.with_child(x, k, c, data);
    lemma_with_child_well_formed(u, x, k, c, data);
    assert(u.children(x).insert(k, c) =~= u.children(x).push(c));
    assert(part_of(v0, t)) by {
        assert forall|y: NodeId| #[trigger] v0.nodes.contains_key(y) implies {
            &&& t.nodes.contains_key(y)
            &&& v0.nodes[y].parent == t.nodes[y].parent
            &&& v0.nodes[y].data == t.nodes[y].data
            &&& v0.nodes[y].children.len() <= t.nodes[y].children.len()
            &&& v0.nodes[y].children == t.nodes[y].children.subrange(
                0,
                v0.nodes[y].children.len() as int,
            )
        } by {
            if y == c {
                assert(v0.nodes[y].children =~= t.nodes[y].children.subrange(0, 0));
            } else if y == x {
                assert(u.nodes.contains_key(x));
                assert(v0.nodes[y].children =~= t.nodes[y].children.subrange(0, k + 1));
            } else {
                assert(u.nodes.contains_key(y));
            }
        }
    }
    let kids = t.children(c);
    if doc_children(doc).len() == 0 {
        assert(grown(u, x, doc) == Some(v0));
        assert(v0.document(c, depth) == t.document(c, depth)) by {
            if data is Folder && depth > 0 {
                lemma_documents_len(t, kids, (depth - 1) as nat, kids.len());
                assert(v0.children(c).len() == 0);
                assert(v0.documents(v0.children(c), (depth - 1) as nat, 0) =~= t.documents(
                    kids,
                    (depth - 1) as nat,
                    kids.len(),
                ));
            }
        }
        assert(shown_below(t, v0, c, depth)) by {
            assert forall|y: NodeId, steps: nat|
                #[trigger] t.ancestor(y, steps) == Some(c) && steps
                    <= depth implies v0.nodes.contains_key(y) && (steps < depth ==> v0.nodes[y]
                == t.nodes[y]) by {
                if steps == 0 {
                    if depth > 0 {
                        if data is Folder {
                            lemma_documents_len(t, kids, (depth - 1) as nat, kids.len());
                        }
                        assert(v0.nodes[c].children =~= t.nodes[c].children);
                    }
                } else {
                    lemma_ancestor_last(t, y, steps);
                    let e = t.ancestor(y, (steps - 1) as nat)->0;
                    assert(t.nodes.contains_key(e));
                    assert(kids.contains(e));
                    if data is Folder {
                        lemma_documents_len(t, kids, (depth - 1) as nat, kids.len());
                    }
                }
            }
        }
        assert(copied(t, u, v0, x, c, depth));
    } else {
        let below = (depth - 1) as nat;
        assert(data is Folder && depth > 0);
        lemma_documents_len(t, kids, below, kids.len());
        assert(doc_children(doc) == t.documents(kids, below, kids.len()));
        assert(v0.nodes.contains_key(c));
        lemma_copy_children(t, v0, c, below, kids.len());
        let v = grown_all(v0, c, t.documents(kids, below, kids.len()), kids.len())->0;
        assert(grown(u, x, doc) == Some(v));
        assert(v.nodes.contains_key(c));
        assert(v.children(c) =~= kids);
        lemma_documents_same(v, t, kids, below, kids.len());
        assert(v.document(c, depth) == t.document(c, depth));
        assert(v.nodes[x] == v0.nodes[x]);
        assert forall|y: NodeId| #[trigger] u.nodes.contains_key(y) implies v.nodes.contains_key(
            y,
        ) by {
            assert(v0.nodes.contains_key(y));
        }
        assert forall|y: NodeId| u.nodes.contains_key(y) && y != x implies #[trigger] v.nodes[y]
            == u.nodes[y] by {
            assert(v0.nodes.contains_key(y) && y != c);
        }
        assert(shown_below(t, v, c, depth)) by {
            assert forall|y: NodeId, steps: nat|
                #[trigger] t.ancestor(y, steps) == Some(c) && steps
                    <= depth implies v.nodes.contains_key(y) && (steps < depth ==> v.nodes[y]
                == t.nodes[y]) by {
                if steps == 0 {
                    assert(v.nodes[c].children =~= t.nodes[c].children);
                } else {
                    lemma_ancestor_last(t, y, steps);
                    let e = t.ancestor(y, (steps - 1) as nat)->0;
                    assert(t.nodes.contains_key(e));
                    assert(kids.contains(e));
                    let i = kids.index_of(e);
                    assert(shown_below(t, v, kids[i], below));
                }
            }
        }
        assert(copied(t, u, v, x, c, depth));
    }
}

/// The documents of the first children of a node are accepted, one after
/// the other, by a part of the tree in which the node has no children yet.
pub proof fn lemma_copy_children(t: TreeView, u: TreeView, x: NodeId, depth: nat, count: nat)
    requires
        t.well_formed(),
        bounded(t),
        u.well_formed(),
        part_of(u, t),
        u.contains(x),
        u.children(x).len() == 0,
        count <= t.children(x).len(),
    ensures
        grown_all(u, x, t.documents(t.children(x), depth, t.children(x).len()), count) is Some,
        copied_all(
            t,
            u,
            grown_all(u, x, t.documents(t.children(x), depth, t.children(x).len()), count)->0,
            x,
            depth,
            count,
        ),
    decreases depth, count + 1,
{
    let kids = t.children(x);
    let docs = t.documents(kids, depth, kids.len());
    lemma_documents_len(t, kids, depth, kids.len());
    if count == 0 {
        assert(u.children(x) =~= kids.subrange(0, 0));
    } else {
        let n = (count - 1) as nat;
        lemma_copy_children(t, u, x, depth, n);
        let w = grown_all(u, x, docs, n)->0;
        let c = kids[n as int];
        lemma_documents_index(t, kids, depth, kids.len(), n as int);
        assert(docs[n as int] == t.document(c, depth));
        assert(w.nodes.contains_key(x));
        assert(w.children(x).len() == n);
        lemma_copy_node(t, w, x, c, depth);
        let v = grown(w, x, t.document(c, depth))->0;
        assert(grown_all(u, x, docs, count) == Some(v));
        assert(v.children(x) =~= kids.subrange(0, count as int));
        assert forall|y: NodeId| #[trigger] u.nodes.contains_key(y) implies v.nodes.contains_key(
            y,
        ) by {
            assert(w.nodes.contains_key(y));
        }
        assert forall|y: NodeId| u.nodes.contains_key(y) && y != x implies #[trigger] v.nodes[y]
            == u.nodes[y] by {
            assert(w.nodes.contains_key(y));
            assert(v.nodes[y] == w.nodes[y]);
        }
        assert forall|i: int| 0 <= i < count implies v.document(#[trigger] kids[i], depth)
            == t.document(kids[i], depth) by {
            if i < n {
                let e = kids[i];
                assert(w.children(x)[i] == e);
                assert(w.nodes.contains_key(w.nodes[x].children[i]));
                assert(w.parent(e) == Some(x));
                lemma_parent_outside(w, e);
                assert forall|y: NodeId| #[trigger] w.in_subtree(e, y) implies v.nodes.contains_key(
                    y,
                ) && v.nodes[y] == w.nodes[y] by {
                    lemma_subtree_contains(w, e, y);
                    assert(w.nodes.contains_key(y));
                    assert(y != x);
                }
                lemma_document_frame(w, v, e, depth);
            }
        }
        assert forall|i: int| 0 <= i < count implies shown_below(
            t,
            v,
            #[trigger] kids[i],
            depth,
        ) by {
            if i < n {
                let e = kids[i];
                assert(t.nodes.contains_key(x));
                assert(t.nodes.contains_key(t.nodes[x].children[i]));
                assert(t.parent(e) == Some(x));
                lemma_parent_outside(t, e);
                assert(shown_below(t, w, e, depth));
                assert forall|y: NodeId, steps: nat|
                    #[trigger] t.ancestor(y, steps) == Some(e) && steps
                        <= depth implies v.nodes.contains_key(y) && (steps < depth ==> v.nodes[y]
                    == t.nodes[y]) by {
                    assert(w.nodes.contains_key(y));
                    assert(y != x);
                    assert(v.nodes[y] == w.nodes[y]);
                }
            }
        }
    }
}

/// A tree that is read back from a document of the tree has that document
/// again, at the depth of the document: it serializes as the tree did. This
/// holds at every depth, and so at the largest, at which a snapshot is
/// written.
pub proof fn law_round_trip(arena: BookmarkArena, depth: nat)
    requires
        arena.wf(),
    ensures
        loaded(arena@.document(arena@.root, depth)) is Some,
        loaded(arena@.document(arena@.root, depth))->0.well_formed(),
        loaded(arena@.document(arena@.root, depth))->0.root == arena@.root,
        loaded(arena@.document(arena@.root, depth))->0.document(arena@.root, depth)
            == arena@.document(arena@.root, depth),
{
    arena.lemma_wf();
    let t = arena@;
    assert(bounded(t)) by {
        assert forall|y: NodeId| #[trigger] t.nodes.contains_key(y) implies y < usize::MAX by {
            arena.lemma_ids_bounded(y);
        }
    }
    lemma_tree_round_trip(t, depth);
}

/// The round trip of [`law_round_trip`], for a tree whose identifiers all
/// lie below the largest number that one can be.
pub proof fn lemma_tree_round_trip(t: TreeView, depth: nat)
    requires
        t.well_formed(),
        bounded(t),
    ensures
        loaded(t.document(t.root, depth)) is Some,
        loaded(t.document(t.root, depth))->0.well_formed(),
        loaded(t.document(t.root, depth))->0.root == t.root,
        loaded(t.document(t.root, depth))->0.document(t.root, depth) == t.document(t.root, depth),
{
    let root = t.root;
    let doc = t.document(root, depth);
    lemma_document_read(t, root, depth);
    let u0 = planted(doc)->0;
    assert(planted(doc) is Some);
    assert(u0.nodes.dom() =~= set![root]);
    assert(u0.well_formed()) by {
        assert(u0.ranked(|y: NodeId| 0nat));
    }
    assert(part_of(u0, t)) by {
        assert(u0.nodes[root].children =~= t.nodes[root].children.subrange(0, 0));
    }
    let kids = t.children(root);
    if doc_children(doc).len() == 0 {
        assert(loaded(doc) == Some(u0));
        if depth > 0 {
            lemma_documents_len(t, kids, (depth - 1) as nat, kids.len());
            assert(u0.documents(u0.children(root), (depth - 1) as nat, 0) =~= t.documents(
                kids,
                (depth - 1) as nat,
                kids.len(),
            ));
        }
    } else {
        let below = (depth - 1) as nat;
        assert(depth > 0);
        lemma_documents_len(t, kids, below, kids.len());
        assert(doc_children(doc) == t.documents(kids, below, kids.len()));
        assert(u0.nodes.contains_key(root));
        lemma_copy_children(t, u0, root, below, kids.len());
        let v = grown_all(u0, root, t.documents(kids, below, kids.len()), kids.len())->0;
        assert(loaded(doc) == Some(v));
        assert(v.nodes.contains_key(root));
        assert(v.children(root) =~= kids);
        lemma_documents_same(v, t, kids, below, kids.len());
    }
}

/// A snapshot loses nothing: the tree that is read back from the document
/// of the largest depth is the tree that the document was made of, with the
/// same nodes under the same identifiers, in the same order.
pub proof fn law_snapshot_lossless(arena: BookmarkArena)
    requires
        arena.wf(),
    ensures
        loaded(arena@.document(arena@.root, usize::MAX as nat)) == Some(arena@),
{
    arena.lemma_wf();
    let t = arena@;
    assert(bounded(t)) by {
        assert forall|y: NodeId| #[trigger] t.nodes.contains_key(y) implies y < usize::MAX by {
            arena.lemma_ids_bounded(y);
        }
    }
    let depth = usize::MAX as nat;
    let below = (depth - 1) as nat;
    let root = t.root;
    let doc = t.document(root, depth);
    let kids = t.children(root);
    lemma_document_read(t, root, depth);
    lemma_documents_len(t, kids, below, kids.len());
    let u0 = planted(doc)->0;
    assert(u0.nodes.dom() =~= set![root]);
    assert(u0.well_formed()) by {
        assert(u0.ranked(|y: NodeId| 0nat));
    }
    assert(part_of(u0, t)) by {
        assert(u0.nodes[root].children =~= t.nodes[root].children.subrange(0, 0));
    }
    assert(u0.nodes.contains_key(root));
    lemma_copy_children(t, u0, root, below, kids.len());
    let v = grown_all(u0, root, t.documents(kids, below, kids.len()), kids.len())->0;
    assert(loaded(doc) == Some(v));
    assert(v.nodes.contains_key(root));
    assert(v.nodes[root].children =~= kids);
    assert forall|y: NodeId| t.nodes.contains_key(y) implies v.nodes.contains_key(y)
        && #[trigger] v.nodes[y] == t.nodes[y] by {
        if y != root {
            crate::laws::lemma_reaches_root(t, y);
            let steps = choose|steps: nat| t.ancestor(y, steps) == Some(root);
            lemma_chain_short(t, y, steps, depth);
            lemma_ancestor_last(t, y, steps);
            let e = t.ancestor(y, (steps - 1) as nat)->0;
            assert(t.nodes.contains_key(e));
            assert(kids.contains(e));
            let i = kids.index_of(e);
            assert(shown_below(t, v, kids[i], below));
        }
    }
    assert(v.nodes.dom() =~= t.nodes.dom()) by {
        assert forall|y: NodeId| v.nodes.contains_key(y) implies t.nodes.contains_key(y) by {}
    }
    assert(v.nodes =~= t.nodes);
    assert(v =~= t);
}

/// A list of shown documents has what is shown of each document, in order.
pub proof fn lemma_shown_all_index(docs: Seq<JsonView>, depth: nat, count: nat, i: int)
    requires
        0 <= i < count <= docs.len(),
    ensures
        shown_all(docs, depth, count).len() == count,
        shown_all(docs, depth, count)[i] == shown(docs[i], depth),
    decreases count,
{
    lemma_shown_all_len(docs, depth, (count - 1) as nat);
    if i < count - 1 {
        lemma_shown_all_index(docs, depth, (count - 1) as nat, i);
    }
}

/// A list of shown documents has one entry for each document.
pub proof fn lemma_shown_all_len(docs: Seq<JsonView>, depth: nat, count: nat)
    requires
        count <= docs.len(),
    ensures
        shown_all(docs, depth, count).len() == count,
    decreases count,
{
    if count > 0 {
        lemma_shown_all_len(docs, depth, (count - 1) as nat);
    }
}

/// What holds of the tree `after` that has taken the nodes that `doc`
/// describes below `parent` into the tree `before`.
pub open spec fn taken(
    before: TreeView,
    after: TreeView,
    parent: NodeId,
    doc: JsonView,
    depth: nat,
) -> bool {
    let id = doc_id(doc)->0;
    &&& after.well_formed()
    &&& !before.contains(id)
    &&& after.contains(id)
    &&& after.parent(id) == Some(parent)
    &&& after.root == before.root
    &&& after.children(parent) == before.children(parent).push(id)
    &&& after.parent(parent) == before.parent(parent)
    &&& after.data(parent) == before.data(parent)
    &&& forall|y: NodeId| #[trigger] before.nodes.contains_key(y) ==> after.nodes.contains_key(y)
    &&& forall|y: NodeId|
        before.nodes.contains_key(y) && y != parent ==> #[trigger] after.nodes[y]
            == before.nodes[y]
    &&& after.document(id, depth) == shown(doc, depth)
}

/// What holds of the tree `after` that has taken the nodes that the first
/// `count` of `docs` describe below `parent` into the tree `before`.
pub open spec fn taken_all(
    before: TreeView,
    after: TreeView,
    parent: NodeId,
    docs: Seq<JsonView>,
    count: nat,
    depth: nat,
) -> bool {
    &&& after.well_formed()
    &&& after.root == before.root
    &&& after.children(parent) == before.children(parent) + doc_ids(docs, count)
    &&& after.parent(parent) == before.parent(parent)
    &&& after.data(parent) == before.data(parent)
    &&& forall|y: NodeId| #[trigger] before.nodes.contains_key(y) ==> after.nodes.contains_key(y)
    &&& forall|y: NodeId|
        before.nodes.contains_key(y) && y != parent ==> #[trigger] after.nodes[y]
            == before.nodes[y]
    &&& forall|i: int|
        0 <= i < count ==> after.document(doc_id(#[trigger] docs[i])->0, depth) == shown(
            docs[i],
            depth,
        )
}

/// A node that is read from a document shows what the document says of it.
pub proof fn lemma_grown_shows(t: TreeView, parent: NodeId, doc: JsonView, depth: nat)
    requires
        t.well_formed(),
        t.is_folder(parent),
        grown(t, parent, doc) is Some,
    ensures
        taken(t, grown(t, parent, doc)->0, parent, doc, depth),
    decreases doc, 0nat,
{
    let id = doc_id(doc)->0;
    let data = doc_data(doc)->0;
    let at = t.children(parent).len() as int;
    let v0 = t.with_child(parent, at, id, data);
    lemma_with_child_well_formed(t, parent, at, id, data);
    assert(t.children(parent).insert(at, id) =~= t.children(parent).push(id));
    let docs = doc_children(doc);
    if docs.len() == 0 {
        assert(grown(t, parent, doc) == Some(v0));
        assert(v0.document(id, depth) == shown(doc, depth)) by {
            if depth > 0 {
                assert(v0.documents(v0.children(id), (depth - 1) as nat, 0) =~= shown_all(
                    docs,
                    (depth - 1) as nat,
                    0,
                ));
            }
        }
        assert(taken(t, v0, parent, doc, depth));
    } else {
        let below = if depth == 0 {
            0nat
        } else {
            (depth - 1) as nat
        };
        assert(data is Folder);
        assert(v0.nodes.contains_key(id));
        lemma_grown_all_shows(v0, id, docs, docs.len(), below);
        let v = grown_all(v0, id, docs, docs.len())->0;
        assert(grown(t, parent, doc) == Some(v));
        assert(v.nodes.contains_key(id));
        assert(v.children(id) =~= doc_ids(docs, docs.len()));
        assert(v.nodes[parent] == v0.nodes[parent]);
        assert forall|y: NodeId| #[trigger] t.nodes.contains_key(y) implies v.nodes.contains_key(
            y,
        ) by {
            assert(v0.nodes.contains_key(y));
        }
        assert forall|y: NodeId| t.nodes.contains_key(y) && y != parent implies #[trigger] v.nodes[y]
            == t.nodes[y] by {
            assert(v0.nodes.contains_key(y) && y != id);
        }
        assert(v.document(id, depth) == shown(doc, depth)) by {
            if depth > 0 {
                let ids = v.children(id);
                lemma_documents_len(v, ids, below, ids.len());
                lemma_shown_all_len(docs, below, docs.len());
                assert forall|i: int| 0 <= i < ids.len() implies v.documents(
                    ids,
                    below,
                    ids.len(),
                )[i] == shown_all(docs, below, docs.len())[i] by {
                    lemma_documents_index(v, ids, below, ids.len(), i);
                    lemma_shown_all_index(docs, below, docs.len(), i);
                    assert(v.document(doc_id(docs[i])->0, below) == shown(docs[i], below));
                }
                assert(v.documents(ids, below, ids.len()) =~= shown_all(docs, below, docs.len()));
            }
        }
        assert(taken(t, v, parent, doc, depth));
    }
}

/// The nodes that are read from a list of documents show what the documents
/// say of them.
pub proof fn lemma_grown_all_shows(
    t: TreeView,
    parent: NodeId,
    docs: Seq<JsonView>,
    count: nat,
    depth: nat,
)
    requires
        t.well_formed(),
        t.is_folder(parent),
        count <= docs.len(),
        grown_all(t, parent, docs, count) is Some,
    ensures
        taken_all(t, grown_all(t, parent, docs, count)->0, parent, docs, count, depth),
    decreases docs, count,
{
    if count == 0 {
        assert(t.children(parent) =~= t.children(parent) + doc_ids(docs, 0));
    } else {
        let n = (count - 1) as nat;
        lemma_grown_all_shows(t, parent, docs, n, depth);
        let w = grown_all(t, parent, docs, n)->0;
        let doc = docs[n as int];
        let id = doc_id(doc)->0;
        assert(w.nodes.contains_key(parent));
        assert(w.is_folder(parent));
        lemma_grown_shows(w, parent, doc, depth);
        let v = grown(w, parent, doc)->0;
        assert(grown_all(t, parent, docs, count) == Some(v));
        assert(v.children(parent) =~= t.children(parent) + doc_ids(docs, count));
        assert forall|y: NodeId| #[trigger] t.nodes.contains_key(y) implies v.nodes.contains_key(
            y,
        ) by {
            assert(w.nodes.contains_key(y));
        }
        assert forall|y: NodeId| t.nodes.contains_key(y) && y != parent implies #[trigger] v.nodes[y]
            == t.nodes[y] by {
            assert(w.nodes.contains_key(y));
            assert(v.nodes[y] == w.nodes[y]);
        }
        assert forall|i: int| 0 <= i < count implies v.document(
            doc_id(#[trigger] docs[i])->0,
            depth,
        ) == shown(docs[i], depth) by {
            if i < n {
                let e = doc_id(docs[i])->0;
                let k = t.children(parent).len() + i;
                assert(w.children(parent)[k] == e);
                assert(w.nodes.contains_key(w.nodes[parent].children[k]));
                assert(w.parent(e) == Some(parent));
                lemma_parent_outside(w, e);
                assert forall|y: NodeId| #[trigger] w.in_subtree(e, y) implies v.nodes.contains_key(
                    y,
                ) && v.nodes[y] == w.nodes[y] by {
                    lemma_subtree_contains(w, e, y);
                    assert(w.nodes.contains_key(y));
                    assert(y != parent);
                }
                lemma_document_frame(w, v, e, depth);
            }
        }
    }
}

/// A tree that is read from a document is well formed and shows, at every
/// depth, what the document says: the nodes under their identifiers, with
/// their contents, in the order of the document.
pub proof fn law_loaded_shows(doc: JsonView, depth: nat)
    requires
        loaded(doc) is Some,
    ensures
        loaded(doc)->0.well_formed(),
        loaded(doc)->0.root == doc_id(doc)->0,
        loaded(doc)->0.document(doc_id(doc)->0, depth) == shown(doc, depth),
{
    let root = doc_id(doc)->0;
    let u0 = planted(doc)->0;
    let docs = doc_children(doc);
    assert(u0.nodes.dom() =~= set![root]);
    assert(u0.well_formed()) by {
        assert(u0.ranked(|y: NodeId| 0nat));
    }
    assert(u0.nodes.contains_key(root));
    let below = if depth == 0 {
        0nat
    } else {
        (depth - 1) as nat
    };
    lemma_grown_all_shows(u0, root, docs, docs.len(), below);
    let v = loaded(doc)->0;
    assert(v.nodes.contains_key(root));
    assert(v.children(root) =~= doc_ids(docs, docs.len()));
    if depth > 0 {
        let ids = v.children(root);
        lemma_documents_len(v, ids, below, ids.len());
        lemma_shown_all_len(docs, below, docs.len());
        assert forall|i: int| 0 <= i < ids.len() implies v.documents(ids, below, ids.len())[i]
            == shown_all(docs, below, docs.len())[i] by {
            lemma_documents_index(v, ids, below, ids.len(), i);
            lemma_shown_all_index(docs, below, docs.len(), i);
            assert(v.document(doc_id(docs[i])->0, below) == shown(docs[i], below));
        }
        assert(v.documents(ids, below, ids.len()) =~= shown_all(docs, below, docs.len()));
    }
}

} // verus!
