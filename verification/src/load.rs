//! Reading a tree back from its document.

use vstd::prelude::*;
use crate::arena::BookmarkArena;
use crate::error::Error;
use crate::json::{
    Json, JsonView, Member, decode, items_view, json_parse, member, members_view,
    lemma_items_view_len, lemma_items_view_index,
};
use crate::node::{Bookmark, BookmarkView, Folder, FolderView, NodeData, NodeDataView};
use crate::tree::{NodeId, NodeView, TreeView};

verus! {

/// The text that an object has under `name`.
pub open spec fn text_member(members: Map<Seq<char>, JsonView>, name: Seq<char>) -> Option<
    Seq<char>,
> {
    if members.contains_key(name) && members[name] is Text {
        Some(members[name]->Text_0)
    } else {
        None
    }
}

/// The boolean that an object has under `name`.
pub open spec fn flag_member(members: Map<Seq<char>, JsonView>, name: Seq<char>) -> Option<bool> {
    if members.contains_key(name) && members[name] is Bool {
        Some(members[name]->Bool_0)
    } else {
        None
    }
}

/// The identifier that a node's document gives: its member `id`, a whole
/// number below the largest identifier.
pub open spec fn doc_id(doc: JsonView) -> Option<NodeId> {
    match doc {
        JsonView::Object(members) => if members.contains_key("id"@) && members["id"@] is Number
            && members["id"@]->Number_0 < usize::MAX {
            Some(members["id"@]->Number_0 as usize)
        } else {
            None
        },
        _ => None,
    }
}

/// The content that a node's document gives. An object with a member `url`
/// stands for a bookmark, and needs `title` and `url` as texts. Any other
/// object stands for a folder, and needs `title` as a text, `is_open` and
/// `is_toolbar` as booleans and `children` as a list. Other members are
/// passed over.
pub open spec fn doc_data(doc: JsonView) -> Option<NodeDataView> {
    match doc {
        JsonView::Object(members) => if members.contains_key("url"@) {
            match (text_member(members, "title"@), text_member(members, "url"@)) {
                (Some(title), Some(url)) => Some(
                    NodeDataView::Bookmark(BookmarkView { title, url }),
                ),
                _ => None,
            }
        } else {
            match (
                text_member(members, "title"@),
                flag_member(members, "is_open"@),
                flag_member(members, "is_toolbar"@),
            ) {
                (Some(title), Some(is_open), Some(is_toolbar)) => if members.contains_key(
                    "children"@,
                ) && members["children"@] is Array {
                    Some(NodeDataView::Folder(FolderView { title, is_open, is_toolbar }))
                } else {
                    None
                },
                _ => None,
            }
        },
        _ => None,
    }
}

/// The documents of the children that a folder's document lists.
pub open spec fn doc_children(doc: JsonView) -> Seq<JsonView> {
    match doc {
        JsonView::Object(members) => if !members.contains_key("url"@) && members.contains_key(
            "children"@,
        ) {
            match members["children"@] {
                JsonView::Array(items) => items,
                _ => Seq::empty(),
            }
        } else {
            Seq::empty()
        },
        _ => Seq::empty(),
    }
}

/// The tree `t` with the nodes that `doc` describes added below `parent`,
/// the top one as the last child of `parent`; `None` where the document is
/// not one of a node, names an identifier that is in use, or holds a toolbar
/// folder that the tree cannot take.
pub open spec fn grown(t: TreeView, parent: NodeId, doc: JsonView) -> Option<TreeView>
    decreases doc, 0nat,
{
    match (doc_id(doc), doc_data(doc)) {
        (Some(id), Some(data)) => if t.contains(id) || (data.is_toolbar() && (parent != t.root
            || t.has_toolbar())) {
            None
        } else if doc_children(doc).len() == 0 {
            Some(t.with_child(parent, t.children(parent).len() as int, id, data))
        } else {
            grown_all(
                t.with_child(parent, t.children(parent).len() as int, id, data),
                id,
                doc_children(doc),
                doc_children(doc).len(),
            )
        },
        _ => None,
    }
}

/// The tree `t` with the nodes that the first `count` of `docs` describe
/// added below `parent`, one document after the other.
pub open spec fn grown_all(t: TreeView, parent: NodeId, docs: Seq<JsonView>, count: nat) -> Option<
    TreeView,
>
    decreases docs, count,
{
    if count == 0 || count > docs.len() {
        Some(t)
    } else {
        match grown_all(t, parent, docs, (count - 1) as nat) {
            Some(before) => grown(before, parent, docs[count - 1]),
            None => None,
        }
    }
}

/// What a tree that was read from `doc` shows of the node that `doc`
/// describes, `depth` levels down: the document with the members that count,
/// and no others.
pub open spec fn shown(doc: JsonView, depth: nat) -> JsonView
    decreases depth, 0nat,
{
    match doc_data(doc) {
        Some(NodeDataView::Bookmark(bookmark)) => crate::serialize::bookmark_document(
            doc_id(doc)->0,
            bookmark,
        ),
        Some(NodeDataView::Folder(folder)) => crate::serialize::folder_document(
            doc_id(doc)->0,
            folder,
            if depth == 0 {
                Seq::empty()
            } else {
                shown_all(doc_children(doc), (depth - 1) as nat, doc_children(doc).len())
            },
        ),
        None => JsonView::Null,
    }
}

/// What is shown of the first `count` of `docs`, each `depth` levels down.
pub open spec fn shown_all(docs: Seq<JsonView>, depth: nat, count: nat) -> Seq<JsonView>
    decreases depth, count,
{
    if count == 0 || count > docs.len() {
        Seq::empty()
    } else {
        shown_all(docs, depth, (count - 1) as nat).push(shown(docs[count - 1], depth))
    }
}

/// The identifiers that the first `count` of `docs` give.
pub open spec fn doc_ids(docs: Seq<JsonView>, count: nat) -> Seq<NodeId> {
    Seq::new(count, |i: int| doc_id(docs[i])->0)
}

/// The tree that holds only the root that `doc` describes: a folder that is
/// not the toolbar folder.
pub open spec fn planted(doc: JsonView) -> Option<TreeView> {
    match (doc_id(doc), doc_data(doc)) {
        (Some(id), Some(NodeDataView::Folder(folder))) => if folder.is_toolbar {
            None
        } else {
            Some(
                TreeView {
                    root: id,
                    nodes: Map::empty().insert(
                        id,
                        NodeView {
                            parent: None,
                            children: Seq::empty(),
                            data: NodeDataView::Folder(folder),
                        },
                    ),
                },
            )
        },
        _ => None,
    }
}

/// The tree that a document describes: its root, then the nodes below it in
/// the order of the document. `None` where the document describes no tree:
/// where a node's document lacks a member or has one of another kind, where
/// an identifier occurs twice, where the root is a bookmark or the toolbar
/// folder, where a folder that is not a child of the root is the toolbar
/// folder, or where two folders are.
pub open spec fn loaded(doc: JsonView) -> Option<TreeView> {
    match planted(doc) {
        Some(t) => grown_all(t, t.root, doc_children(doc), doc_children(doc).len()),
        None => None,
    }
}

/// Where the documents up to some count describe no tree, those up to a
/// larger count describe none.
pub proof fn lemma_grown_all_none(
    t: TreeView,
    parent: NodeId,
    docs: Seq<JsonView>,
    count: nat,
    more: nat,
)
    requires
        count <= more <= docs.len(),
        grown_all(t, parent, docs, count) is None,
    ensures
        grown_all(t, parent, docs, more) is None,
    decreases more,
{
    if more > count {
        lemma_grown_all_none(t, parent, docs, count, (more - 1) as nat);
    }
}

/// The text of a member of an object.
fn read_text(members: &Vec<Member>, name: &str) -> (r: Option<String>)
    ensures
        match r {
            Some(text) => text_member(members_view(members@, members@.len()), name@) == Some(
                text@,
            ),
            None => text_member(members_view(members@, members@.len()), name@) is None,
        },
{
    match member(members, name) {
        Some(Json::Text(text)) => Some(text.clone()),
        _ => None,
    }
}

/// The boolean of a member of an object.
fn read_flag(members: &Vec<Member>, name: &str) -> (r: Option<bool>)
    ensures
        r == flag_member(members_view(members@, members@.len()), name@),
{
    match member(members, name) {
        Some(Json::Bool(flag)) => Some(*flag),
        _ => None,
    }
}

/// The identifier and the content that a node's document gives.
pub fn read_node(doc: &Json) -> (r: Option<(NodeId, NodeData)>)
    ensures
        match r {
            Some((id, data)) => doc_id(doc@) == Some(id) && doc_data(doc@) == Some(data@),
            None => doc_id(doc@) is None || doc_data(doc@) is None,
        },
{
    let members = match doc {
        Json::Object(members) => members,
        _ => {
            return None;
        },
    };
    let id: NodeId = match member(members, "id") {
        Some(Json::Number(n)) => {
            if *n >= usize::MAX as u64 {
                return None;
            }
            *n as usize
        },
        _ => {
            return None;
        },
    };
    let title = match read_text(members, "title") {
        Some(title) => title,
        None => {
            return None;
        },
    };
    if member(members, "url").is_some() {
        match read_text(members, "url") {
            Some(url) => Some((id, NodeData::Bookmark(Bookmark { title, url }))),
            None => None,
        }
    } else {
        let is_open = match read_flag(members, "is_open") {
            Some(flag) => flag,
            None => {
                return None;
            },
        };
        let is_toolbar = match read_flag(members, "is_toolbar") {
            Some(flag) => flag,
            None => {
                return None;
            },
        };
        match member(members, "children") {
            Some(Json::Array(_)) => Some(
                (id, NodeData::Folder(Folder { title, is_open, is_toolbar })),
            ),
            _ => None,
        }
    }
}

/// The documents of the children that a node's document lists; `None` where
/// it lists none.
fn child_docs(doc: &Json) -> (r: Option<&Vec<Json>>)
    ensures
        match r {
            Some(items) => {
                &&& items_view(items@, items@.len()) == doc_children(doc@)
                &&& decreases_to!(*doc => *items)
            },
            None => doc_children(doc@).len() == 0,
        },
{
    match doc {
        Json::Object(members) => {
            if member(members, "url").is_some() {
                return None;
            }
            match member(members, "children") {
                Some(Json::Array(items)) => Some(items),
                _ => None,
            }
        },
        _ => None,
    }
}

/// The error of a refused document: `Error::Json` with the given message.
fn refused(message: &str) -> (r: Error)
    ensures
        r matches Error::Json(text) && text@ == message@,
{
    Error::Json(message.to_owned())
}

/// The identifier before the next one is in use: the next identifier is the
/// least above all that are.
pub open spec fn snug(arena: BookmarkArena) -> bool {
    arena.next_id() > 0 && arena@.contains((arena.next_id() - 1) as usize)
}

/// Adds the nodes that `doc` describes below `parent`.
fn grow(arena: &mut BookmarkArena, parent: NodeId, doc: &Json) -> (r: Result<(), Error>)
    requires
        old(arena).wf(),
        old(arena)@.is_folder(parent),
        snug(*old(arena)),
    ensures
        match r {
            Ok(()) => {
                &&& final(arena).wf()
                &&& snug(*final(arena))
                &&& forall|x: NodeId| #[trigger]
                    old(arena)@.contains(x) ==> final(arena)@.contains(x)
                &&& grown(old(arena)@, parent, doc@) == Some(final(arena)@)
                &&& final(arena)@.root == old(arena)@.root
                &&& forall|x: NodeId| #[trigger]
                    old(arena)@.is_folder(x) ==> final(arena)@.is_folder(x)
            },
            Err(e) => e is Json && grown(old(arena)@, parent, doc@) is None,
        },
    decreases doc, 0nat,
{
    let ghost t = arena@;
    let (id, data) = match read_node(doc) {
        Some(node) => node,
        None => {
            return Err(refused("a node lacks a member or has one of another kind"));
        },
    };
    if arena.contains(id) {
        return Err(refused("an identifier occurs twice"));
    }
    if data.is_toolbar() {
        if parent != arena.root() {
            return Err(refused("a toolbar folder is not a child of the root"));
        }
        if arena.toolbar_folder().is_some() {
            return Err(refused("a second toolbar folder"));
        }
    }
    let ghost shown = data@;
    let folder = data.is_folder();
    arena.adopt(parent, id, data);
    let ghost added = arena@;
    proof {
        assert(added.root == t.root);
        assert forall|x: NodeId| #[trigger] t.is_folder(x) implies added.is_folder(x) by {
            assert(x != id);
        }
        assert(forall|x: NodeId| #[trigger] t.contains(x) ==> added.contains(x));
        assert(added.contains(id));
    }
    match child_docs(doc) {
        None => Ok(()),
        Some(items) => {
            proof {
                lemma_items_view_len(items@, items@.len());
            }
            if items.len() == 0 {
                return Ok(());
            }
            assert(shown.is_folder());
            assert(added.is_folder(id));
            grow_all(arena, id, items)
        },
    }
}

/// Adds the nodes that `docs` describe below `parent`, one document after
/// the other.
fn grow_all(arena: &mut BookmarkArena, parent: NodeId, docs: &Vec<Json>) -> (r: Result<(), Error>)
    requires
        old(arena).wf(),
        old(arena)@.is_folder(parent),
        snug(*old(arena)),
    ensures
        match r {
            Ok(()) => {
                &&& final(arena).wf()
                &&& snug(*final(arena))
                &&& forall|x: NodeId| #[trigger]
                    old(arena)@.contains(x) ==> final(arena)@.contains(x)
                &&& grown_all(
                    old(arena)@,
                    parent,
                    items_view(docs@, docs@.len()),
                    docs@.len(),
                ) == Some(final(arena)@)
                &&& final(arena)@.root == old(arena)@.root
                &&& forall|x: NodeId| #[trigger]
                    old(arena)@.is_folder(x) ==> final(arena)@.is_folder(x)
            },
            Err(e) => e is Json && grown_all(
                old(arena)@,
                parent,
                items_view(docs@, docs@.len()),
                docs@.len(),
            ) is None,
        },
    decreases docs, 1nat,
{
    let ghost t = arena@;
    let ghost shown = items_view(docs@, docs@.len());
    proof {
        lemma_items_view_len(docs@, docs@.len());
    }
    let mut i: usize = 0;
    while i < docs.len()
        invariant
            i <= docs.len(),
            t == old(arena)@,
            shown == items_view(docs@, docs@.len()),
            shown.len() == docs.len(),
            arena.wf(),
            snug(*arena),
            arena@.is_folder(parent),
            arena@.root == t.root,
            forall|x: NodeId| #[trigger] t.is_folder(x) ==> arena@.is_folder(x),
            forall|x: NodeId| #[trigger] t.contains(x) ==> arena@.contains(x),
            grown_all(t, parent, shown, i as nat) == Some(arena@),
        decreases docs.len() - i,
    {
        proof {
            lemma_items_view_index(docs@, docs@.len(), i as int);
        }
        let ghost before = arena@;
        assert(shown[i as int] == docs[i as int]@);
        match grow(arena, parent, &docs[i]) {
            Err(e) => {
                proof {
                    assert(grown(before, parent, shown[i as int]) is None);
                    assert(grown_all(t, parent, shown, (i + 1) as nat) is None);
                    lemma_grown_all_none(t, parent, shown, (i + 1) as nat, docs@.len());
                }
                return Err(e);
            },
            Ok(()) => {
                assert(grown_all(t, parent, shown, (i + 1) as nat) == Some(arena@));
            },
        }
        i += 1;
    }
    Ok(())
}

impl BookmarkArena {
    /// The tree that a document describes. The next identifier that the
    /// arena hands out is the least above all that the document names.
    pub fn from_document(doc: &Json) -> (r: Result<BookmarkArena, Error>)
        ensures
            match r {
                Ok(arena) => arena.wf() && loaded(doc@) == Some(arena@) && snug(arena),
                Err(e) => e is Json && loaded(doc@) is None,
            },
    {
        let (id, folder) = match read_node(doc) {
            Some((id, NodeData::Folder(folder))) => (id, folder),
            _ => {
                return Err(refused("the root is not a folder"));
            },
        };
        if folder.is_toolbar {
            return Err(refused("the root is the toolbar folder"));
        }
        let mut arena = BookmarkArena::with_root(id, folder);
        match child_docs(doc) {
            None => Ok(arena),
            Some(items) => {
                proof {
                    lemma_items_view_len(items@, items@.len());
                }
                match grow_all(&mut arena, id, items) {
                    Ok(()) => Ok(arena),
                    Err(e) => Err(e),
                }
            },
        }
    }

    /// The tree that a persisted snapshot describes.
    pub fn from_persisted(bytes: &[u8]) -> (r: Result<BookmarkArena, Error>)
        ensures
            match r {
                Ok(arena) => {
                    &&& arena.wf()
                    &&& snug(arena)
                    &&& json_parse(bytes@) matches Some(doc)
                    &&& loaded(doc) == Some(arena@)
                },
                Err(e) => {
                    &&& e is Json
                    &&& json_parse(bytes@) matches Some(doc) ==> loaded(doc) is None
                },
            },
    {
        match decode(bytes) {
            Err(e) => Err(e),
            Ok(doc) => BookmarkArena::from_document(&doc),
        }
    }
}

} // verus!
