//! What holds of every tree that the operations can produce.
//!
//! Every operation hands back a well-formed arena. The facts below follow
//! from well-formedness alone, so they hold before and after every call.

use vstd::prelude::*;
use crate::arena::BookmarkArena;
use crate::error::Error;
use crate::seqs::{lemma_index_of_found, lemma_insert_fresh};
use crate::tree::{
    NodeId, TreeView, Destination, Position, slot, lemma_ancestor_rank, lemma_subtree_child,
    lemma_subtree_parent, lemma_subtree_top, lemma_parent_outside,
};
use crate::shape::lemma_root_outside;

verus! {

/// The root has no parent, and every other node has one.
pub proof fn law_one_root(arena: BookmarkArena, id: NodeId)
    requires
        arena.wf(),
        arena@.contains(id),
    ensures
        arena@.contains(arena@.root),
        arena@.parent(id) is None <==> id == arena@.root,
{
    arena.lemma_wf();
    assert(arena@.nodes.contains_key(id));
}

/// A node is the child of its parent, and of no other node: it is listed
/// once among the children of its parent, and by nobody else.
pub proof fn law_one_parent(arena: BookmarkArena, parent: NodeId, id: NodeId)
    requires
        arena.wf(),
        arena@.contains(parent),
        arena@.contains(id),
    ensures
        arena@.children(parent).contains(id) <==> arena@.parent(id) == Some(parent),
        arena@.children(parent).no_duplicates(),
{
    arena.lemma_wf();
    crate::shape::lemma_listed_by_parent(arena@, parent, id);
    assert(arena@.nodes.contains_key(parent));
}

/// No node is its own ancestor: no chain of parent links leads from a node
/// back to it.
pub proof fn law_no_cycle(arena: BookmarkArena, id: NodeId, steps: nat)
    requires
        arena.wf(),
        steps > 0,
    ensures
        arena@.ancestor(id, steps) != Some(id),
{
    arena.lemma_wf();
    let t = arena@;
    if t.ancestor(id, steps) == Some(id) {
        lemma_ancestor_rank(t, t.rank(), id, steps);
    }
}

/// No node is an orphan: the chain of parent links from any node leads to
/// the root.
pub proof fn law_no_orphan(arena: BookmarkArena, id: NodeId)
    requires
        arena.wf(),
        arena@.contains(id),
    ensures
        arena@.in_subtree(arena@.root, id),
{
    arena.lemma_wf();
    lemma_reaches_root(arena@, id);
}

/// In a well-formed tree every node lies below the root.
pub proof fn lemma_reaches_root(t: TreeView, id: NodeId)
    requires
        t.well_formed(),
        t.contains(id),
    ensures
        t.in_subtree(t.root, id),
    decreases (t.rank())(id),
{
    if id == t.root {
        lemma_subtree_top(t, id);
    } else {
        assert(t.nodes.contains_key(id));
        let p = t.parent(id)->0;
        lemma_reaches_root(t, p);
        lemma_subtree_child(t, t.root, id);
    }
}

/// At most one folder is the toolbar folder. It is a child of the root.
pub proof fn law_one_toolbar(arena: BookmarkArena, a: NodeId, b: NodeId)
    requires
        arena.wf(),
        arena@.is_toolbar(a),
        arena@.is_toolbar(b),
    ensures
        a == b,
        arena@.parent(a) == Some(arena@.root),
{
    arena.lemma_wf();
    assert(arena@.nodes.contains_key(a) && arena@.nodes.contains_key(b));
}

/// The toolbar folder stays where it is: it can be neither removed nor
/// moved.
pub proof fn law_toolbar_stays(arena: BookmarkArena, id: NodeId, destination: Destination)
    requires
        arena.wf(),
        arena@.is_toolbar(id),
    ensures
        arena@.remove_refusal(id) == Some(Error::ToolbarFolderProtected()),
        arena@.move_refusal(id, destination) is Some,
{
    arena.lemma_wf();
}

/// Only folders have children.
pub proof fn law_bookmarks_are_leaves(arena: BookmarkArena, id: NodeId)
    requires
        arena.wf(),
        arena@.contains(id),
        arena@.data(id) is Bookmark,
    ensures
        arena@.children(id).len() == 0,
{
    arena.lemma_wf();
    assert(arena@.nodes.contains_key(id));
}

/// A node other than the root cannot be moved into its own subtree: where
/// the destination names a node of the subtree as the folder, or a node of
/// the subtree other than the moved one as the sibling, the move is refused
/// as one to a descendant.
pub proof fn law_move_into_subtree(arena: BookmarkArena, id: NodeId, destination: Destination)
    requires
        arena.wf(),
        id != arena@.root,
        arena@.in_subtree(id, destination.anchor()),
        !(destination.beside() && destination.anchor() == id),
    ensures
        arena@.move_refusal(id, destination) == Some(Error::CannotMoveToDescendant()),
{
    arena.lemma_wf();
    let t = arena@;
    let anchor = destination.anchor();
    crate::tree::lemma_subtree_contains(t, id, anchor);
    lemma_root_outside(t, id);
    assert(t.nodes.contains_key(id));
    lemma_parent_outside(t, id);
    if destination.beside() {
        lemma_subtree_parent(t, id, anchor);
    }
    assert(t.in_subtree(id, t.move_parent(destination)));
    assert(t.parent(id) != Some(t.move_parent(destination)));
}

/// The root cannot be removed.
pub proof fn law_remove_root(arena: BookmarkArena)
    requires
        arena.wf(),
    ensures
        arena@.remove_refusal(arena@.root) == Some(Error::CannotRemoveRoot()),
{
    arena.lemma_wf();
}

/// Showing a folder open is idempotent: after one call the folder is open,
/// and a second call finds the node and leaves the tree as the first left it.
pub proof fn law_open_twice(arena: BookmarkArena, id: NodeId)
    requires
        arena.wf(),
        arena@.contains(id),
    ensures
        ({
            let once = arena@.with_data(id, arena@.data(id).opened(true));
            &&& once.contains(id)
            &&& once.with_data(id, once.data(id).opened(true)) == once
            &&& arena@.data(id) is Folder ==> once.data(id)->Folder_0.is_open
        }),
{
    let once = arena@.with_data(id, arena@.data(id).opened(true));
    assert(once.with_data(id, once.data(id).opened(true)).nodes =~= once.nodes);
}

/// A position is exact: a node that is put at a position into a list of
/// siblings stands directly before the sibling it was to precede, directly
/// after the one it was to follow, first, or last, and the siblings keep
/// their order.
pub proof fn law_position_exact(siblings: Seq<NodeId>, position: Position, id: NodeId)
    requires
        siblings.no_duplicates(),
        !siblings.contains(id),
        slot(siblings, position) is Some,
    ensures
        ({
            let at = slot(siblings, position)->0;
            let placed = siblings.insert(at, id);
            &&& 0 <= at <= siblings.len()
            &&& placed[at] == id
            &&& placed.remove(at) == siblings
            &&& match position {
                Position::Before(s) => placed[at + 1] == s,
                Position::After(s) => placed[at - 1] == s,
                Position::FirstChild => at == 0,
                Position::End => at == siblings.len(),
            }
        }),
{
    let at = slot(siblings, position)->0;
    match position {
        Position::Before(s) => {
            lemma_index_of_found(siblings, s);
        },
        Position::After(s) => {
            lemma_index_of_found(siblings, s);
        },
        _ => {},
    }
    lemma_insert_fresh(siblings, at, id);
    assert(siblings.insert(at, id).remove(at) =~= siblings);
}

/// A move changes places only: every node keeps its content, and so a
/// folder that is moved, or that lies below a moved one, stays open or closed
/// as it was.
pub proof fn law_move_keeps_content(
    arena: BookmarkArena,
    id: NodeId,
    parent: NodeId,
    index: int,
    x: NodeId,
)
    requires
        arena.wf(),
        arena@.contains(id),
        id != arena@.root,
        arena@.contains(parent),
        arena@.contains(x),
    ensures
        arena@.moved(id, parent, index).contains(x),
        arena@.moved(id, parent, index).data(x) == arena@.data(x),
{
    arena.lemma_wf();
    assert(arena@.nodes.contains_key(id));
}

} // verus!
