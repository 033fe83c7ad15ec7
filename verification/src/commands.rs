//! The entry points that a user interface calls.
//!
//! A command works on the tree that its caller holds, exclusively, for the
//! length of the call. A command that changes the tree hands back the text
//! that the caller publishes to those who watch the tree.

use vstd::prelude::*;
use crate::arena::BookmarkArena;
use crate::bookmarks::title_or_url;
use crate::error::Error;
use crate::json::json_text;
use crate::node::{BookmarkView, NodeDataView};
use crate::web::web_url;

verus! {

/// The depth of the document that the interface is shown: the root and its
/// children.
pub const SUMMARY_DEPTH: usize = 1;

/// The text of the root's document at [`SUMMARY_DEPTH`].
pub fn get_nested_json(arena: &BookmarkArena) -> (r: Result<String, Error>)
    requires
        arena.wf(),
    ensures
        match r {
            Ok(text) => text@ == json_text(arena@.document(arena@.root, SUMMARY_DEPTH as nat)),
            Err(_) => false,
        },
{
    proof {
        arena.lemma_wf();
    }
    arena.to_nested_json(arena.root(), SUMMARY_DEPTH)
}

/// Adds a bookmark as the last child of the root, and hands back the text of
/// the root's document at [`SUMMARY_DEPTH`] as it is after the change.
pub fn add_bookmark(arena: &mut BookmarkArena, url: String, title: Option<String>) -> (r: Result<
    String,
    Error,
>)
    requires
        old(arena).wf(),
        old(arena).has_room(),
    ensures
        final(arena).wf(),
        match r {
            Ok(text) => {
                let root = old(arena)@.root;
                &&& web_url(url@)
                &&& final(arena)@ == old(arena)@.with_child(
                    root,
                    old(arena)@.children(root).len() as int,
                    old(arena).next_id(),
                    NodeDataView::Bookmark(
                        BookmarkView { title: title_or_url(title, url@), url: url@ },
                    ),
                )
                &&& text@ == json_text(final(arena)@.document(root, SUMMARY_DEPTH as nat))
            },
            Err(e) => {
                &&& !web_url(url@)
                &&& e == Error::NotWebUrl(url)
                &&& final(arena)@ == old(arena)@
            },
        },
{
    proof {
        arena.lemma_wf();
    }
    let root = arena.root();
    match arena.add_bookmark(root, url, title) {
        Err(e) => Err(e),
        Ok(_) => {
            proof {
                arena.lemma_wf();
            }
            arena.to_nested_json(root, SUMMARY_DEPTH)
        },
    }
}

} // verus!
