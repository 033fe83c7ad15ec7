//! The tree as a nested JSON document.
//!
//! A folder is written as an object with the members `id`, `title`,
//! `is_open`, `is_toolbar` and `children`, a bookmark as one with `id`,
//! `title` and `url`. Children come in their order. A document of depth `d`
//! shows the nodes up to `d` levels below its top; a folder at that level
//! is shown with an empty list of children.

use vstd::prelude::*;
use vstd::string::StrSliceExecFns;
use vstd::utf8::encode_utf8;
use crate::arena::BookmarkArena;
use crate::error::Error;
use crate::json::{
    Json, JsonView, Member, encode, items_view, json_text, members_view, lemma_items_view_push,
};
use crate::node::{BookmarkView, FolderView, NodeData, NodeDataView};
use crate::tree::{NodeId, TreeView};

verus! {

/// The document of a bookmark.
pub open spec fn bookmark_document(id: NodeId, bookmark: BookmarkView) -> JsonView {
    JsonView::Object(
        Map::empty().insert("id"@, JsonView::Number(id as u64)).insert(
            "title"@,
            JsonView::Text(bookmark.title),
        ).insert("url"@, JsonView::Text(bookmark.url)),
    )
}

/// The document of a folder whose children have the given documents.
pub open spec fn folder_document(id: NodeId, folder: FolderView, children: Seq<JsonView>) -> JsonView {
    JsonView::Object(
        Map::empty().insert("id"@, JsonView::Number(id as u64)).insert(
            "title"@,
            JsonView::Text(folder.title),
        ).insert("is_open"@, JsonView::Bool(folder.is_open)).insert(
            "is_toolbar"@,
            JsonView::Bool(folder.is_toolbar),
        ).insert("children"@, JsonView::Array(children)),
    )
}

impl TreeView {
    /// The document of the node `id` that goes `depth` levels down.
    pub open spec fn document(self, id: NodeId, depth: nat) -> JsonView
        decreases depth, 0nat,
    {
        match self.data(id) {
            NodeDataView::Bookmark(bookmark) => bookmark_document(id, bookmark),
            NodeDataView::Folder(folder) => folder_document(
                id,
                folder,
                if depth == 0 {
                    Seq::empty()
                } else {
                    self.documents(self.children(id), (depth - 1) as nat, self.children(id).len())
                },
            ),
        }
    }

    /// The documents of the first `count` of `ids`, each `depth` levels down.
    pub open spec fn documents(self, ids: Seq<NodeId>, depth: nat, count: nat) -> Seq<JsonView>
        decreases depth, count,
    {
        if count == 0 || count > ids.len() {
            Seq::empty()
        } else {
            self.documents(ids, depth, (count - 1) as nat).push(
                self.document(ids[count - 1], depth),
            )
        }
    }
}

/// A list of documents has one document for each node.
pub proof fn lemma_documents_len(t: TreeView, ids: Seq<NodeId>, depth: nat, count: nat)
    requires
        count <= ids.len(),
    ensures
        t.documents(ids, depth, count).len() == count,
    decreases count,
{
    if count > 0 {
        lemma_documents_len(t, ids, depth, (count - 1) as nat);
    }
}

/// The document of a node can be written as text: it holds no number
/// outside the whole numbers from 0 to 2^64 - 1.
pub proof fn lemma_document_writable(t: TreeView, id: NodeId, depth: nat)
    ensures
        t.document(id, depth).writable(),
    decreases depth, 0nat,
{
    match t.data(id) {
        NodeDataView::Bookmark(bookmark) => {
            assert(JsonView::Number(id as u64).writable());
            assert(JsonView::Text(bookmark.title).writable());
            assert(JsonView::Text(bookmark.url).writable());
        },
        NodeDataView::Folder(folder) => {
            let children = if depth == 0 {
                Seq::empty()
            } else {
                t.documents(t.children(id), (depth - 1) as nat, t.children(id).len())
            };
            if depth > 0 {
                lemma_documents_writable(
                    t,
                    t.children(id),
                    (depth - 1) as nat,
                    t.children(id).len(),
                );
            }
            assert(JsonView::Array(children).writable());
            assert(JsonView::Number(id as u64).writable());
            assert(JsonView::Text(folder.title).writable());
            assert(JsonView::Bool(folder.is_open).writable());
            assert(JsonView::Bool(folder.is_toolbar).writable());
        },
    }
}

/// Each document of a list of documents can be written as text.
pub proof fn lemma_documents_writable(t: TreeView, ids: Seq<NodeId>, depth: nat, count: nat)
    ensures
        forall|i: int|
            0 <= i < t.documents(ids, depth, count).len() ==> (#[trigger] t.documents(
                ids,
                depth,
                count,
            )[i]).writable(),
    decreases depth, count,
{
    if count == 0 || count > ids.len() {
    } else {
        lemma_documents_writable(t, ids, depth, (count - 1) as nat);
        lemma_documents_len(t, ids, depth, (count - 1) as nat);
        lemma_document_writable(t, ids[count - 1], depth);
        let before = t.documents(ids, depth, (count - 1) as nat);
        let all = t.documents(ids, depth, count);
        assert forall|i: int| 0 <= i < all.len() implies (#[trigger] all[i]).writable() by {
            if i < count - 1 {
                assert(all[i] == before[i]);
            }
        }
    }
}

/// What the three members of a bookmark's document make up.
proof fn lemma_bookmark_members(members: Seq<Member>, id: NodeId, bookmark: BookmarkView)
    requires
        members.len() == 3,
        members[0].name@ == "id"@ && members[0].value@ == JsonView::Number(id as u64),
        members[1].name@ == "title"@ && members[1].value@ == JsonView::Text(bookmark.title),
        members[2].name@ == "url"@ && members[2].value@ == JsonView::Text(bookmark.url),
    ensures
        JsonView::Object(members_view(members, 3)) == bookmark_document(id, bookmark),
{
    reveal_with_fuel(members_view, 4);
}

/// What the five members of a folder's document make up.
proof fn lemma_folder_members(
    members: Seq<Member>,
    id: NodeId,
    folder: FolderView,
    children: Seq<JsonView>,
)
    requires
        members.len() == 5,
        members[0].name@ == "id"@ && members[0].value@ == JsonView::Number(id as u64),
        members[1].name@ == "title"@ && members[1].value@ == JsonView::Text(folder.title),
        members[2].name@ == "is_open"@ && members[2].value@ == JsonView::Bool(folder.is_open),
        members[3].name@ == "is_toolbar"@ && members[3].value@ == JsonView::Bool(
            folder.is_toolbar,
        ),
        members[4].name@ == "children"@ && members[4].value@ == JsonView::Array(children),
    ensures
        JsonView::Object(members_view(members, 5)) == folder_document(id, folder, children),
{
    reveal_with_fuel(members_view, 6);
}

impl BookmarkArena {
    /// The document of `root` that goes `max_depth` levels down.
    pub fn nested(&self, root: NodeId, max_depth: usize) -> (r: Result<Json, Error>)
        requires
            self.wf(),
        ensures
            match r {
                Ok(json) => self@.contains(root) && json@ == self@.document(root, max_depth as nat),
                Err(e) => !self@.contains(root) && e == Error::NodeIdNotFound(root),
            },
        decreases max_depth,
    {
        let ghost t = self@;
        proof {
            self.lemma_wf();
        }
        let data = match self.get(root) {
            Err(_) => {
                return Err(Error::NodeIdNotFound(root));
            },
            Ok(data) => data,
        };
        match data {
            NodeData::Bookmark(bookmark) => {
                let members = vec![
                    Member { name: "id".to_owned(), value: Json::Number(root as u64) },
                    Member { name: "title".to_owned(), value: Json::Text(bookmark.title.clone()) },
                    Member { name: "url".to_owned(), value: Json::Text(bookmark.url.clone()) },
                ];
                proof {
                    lemma_bookmark_members(members@, root, bookmark@);
                }
                Ok(Json::Object(members))
            },
            NodeData::Folder(folder) => {
                let mut items: Vec<Json> = Vec::new();
                if max_depth > 0 {
                    let kids = self.children_of(root);
                    let mut i: usize = 0;
                    while i < kids.len()
                        invariant
                            self.wf(),
                            t == self@,
                            t.contains(root),
                            kids@ == t.children(root),
                            max_depth > 0,
                            i <= kids.len(),
                            items.len() == i,
                            items_view(items@, items@.len()) == t.documents(
                                kids@,
                                (max_depth - 1) as nat,
                                i as nat,
                            ),
                        decreases kids.len() - i,
                    {
                        proof {
                            self.lemma_wf();
                            assert(t.nodes.contains_key(t.nodes[root].children[i as int]));
                        }
                        let ghost before = items@;
                        match self.nested(kids[i], max_depth - 1) {
                            Err(e) => {
                                return Err(e);
                            },
                            Ok(child) => {
                                proof {
                                    lemma_items_view_push(before, child);
                                }
                                items.push(child);
                            },
                        }
                        i += 1;
                    }
                }
                let ghost shown = items_view(items@, items@.len());
                let members = vec![
                    Member { name: "id".to_owned(), value: Json::Number(root as u64) },
                    Member { name: "title".to_owned(), value: Json::Text(folder.title.clone()) },
                    Member { name: "is_open".to_owned(), value: Json::Bool(folder.is_open) },
                    Member { name: "is_toolbar".to_owned(), value: Json::Bool(folder.is_toolbar) },
                    Member { name: "children".to_owned(), value: Json::Array(items) },
                ];
                proof {
                    lemma_folder_members(members@, root, folder@, shown);
                }
                Ok(Json::Object(members))
            },
        }
    }

    /// The text of the document of `root` that goes `max_depth` levels down.
    pub fn to_nested_json(&self, root: NodeId, max_depth: usize) -> (r: Result<String, Error>)
        requires
            self.wf(),
        ensures
            match r {
                Ok(text) => self@.contains(root) && text@ == json_text(
                    self@.document(root, max_depth as nat),
                ),
                Err(e) => !self@.contains(root) && e == Error::NodeIdNotFound(root),
            },
    {
        match self.nested(root, max_depth) {
            Err(e) => Err(e),
            Ok(json) => {
                proof {
                    lemma_document_writable(self@, root, max_depth as nat);
                }
                Ok(encode(&json))
            },
        }
    }

    /// The snapshot of the whole tree: the UTF-8 bytes of the text of the
    /// root's document at the largest depth.
    pub fn to_persisted(&self) -> (r: Vec<u8>)
        requires
            self.wf(),
        ensures
            r@ == encode_utf8(json_text(self@.document(self@.root, usize::MAX as nat))),
    {
        proof {
            self.lemma_wf();
        }
        match self.to_nested_json(self.root(), usize::MAX) {
            Ok(text) => text.as_str().as_bytes_vec(),
            Err(_) => vstd::pervasive::unreached(),
        }
    }
}

} // verus!
