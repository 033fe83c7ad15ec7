use bookmark_tree::arena::BookmarkArena;
use bookmark_tree::error::Error;
use bookmark_tree::node::{Bookmark, Folder, NodeData};
use bookmark_tree::tree::{Destination, Position};

fn folder(arena: &mut BookmarkArena, parent: usize, title: &str) -> usize {
    arena.add_folder(parent, title.to_string()).unwrap()
}

fn bookmark(arena: &mut BookmarkArena, parent: usize, url: &str) -> usize {
    arena.add_bookmark(parent, url.to_string(), None).unwrap()
}

#[test]
fn a_fresh_arena_holds_a_root_folder() {
    let (arena, root) = BookmarkArena::create_root();
    assert_eq!(arena.root(), root);
    assert!(arena.contains(root));
    assert_eq!(arena.parent_of(root), None);
    assert!(arena.children_of(root).is_empty());
    assert_eq!(
        arena.get(root),
        Ok(&NodeData::Folder(Folder { title: "Root".to_string(), is_open: false, is_toolbar: false }))
    );
    assert!(!arena.is_full());
    assert_eq!(arena.toolbar_folder(), None);
}

#[test]
fn get_reports_a_missing_node() {
    let (arena, _) = BookmarkArena::create_root();
    assert_eq!(arena.get(41), Err(Error::NodeNotFound(41)));
    assert_eq!(arena.parent_of(41), None);
    assert!(arena.children_of(41).is_empty());
}

#[test]
fn insert_puts_nodes_at_the_named_positions() {
    let (mut arena, root) = BookmarkArena::create_root();
    let a = arena.insert(root, NodeData::Folder(Folder::new("a".into())), Position::End).unwrap();
    let b = arena.insert(root, NodeData::Folder(Folder::new("b".into())), Position::End).unwrap();
    let c = arena.insert(root, NodeData::Folder(Folder::new("c".into())), Position::FirstChild).unwrap();
    let d = arena.insert(root, NodeData::Folder(Folder::new("d".into())), Position::Before(b)).unwrap();
    let e = arena.insert(root, NodeData::Folder(Folder::new("e".into())), Position::After(a)).unwrap();
    assert_eq!(arena.children_of(root), vec![c, a, e, d, b]);
    for id in [a, b, c, d, e] {
        assert_eq!(arena.parent_of(id), Some(root));
    }
}

#[test]
fn insert_hands_out_each_identifier_once() {
    let (mut arena, root) = BookmarkArena::create_root();
    let a = folder(&mut arena, root, "a");
    arena.remove(a).unwrap();
    let b = folder(&mut arena, root, "b");
    assert_ne!(a, b);
    assert!(!arena.contains(a));
    assert!(arena.contains(b));
}

#[test]
fn insert_reports_a_missing_parent_or_sibling() {
    let (mut arena, root) = BookmarkArena::create_root();
    let a = folder(&mut arena, root, "a");
    let inner = folder(&mut arena, a, "inner");
    let data = || NodeData::Folder(Folder::new("x".into()));
    assert_eq!(arena.insert(99, data(), Position::End), Err(Error::NodeIdNotFound(99)));
    assert_eq!(arena.insert(root, data(), Position::Before(77)), Err(Error::NodeIdNotFound(77)));
    assert_eq!(arena.insert(root, data(), Position::After(inner)), Err(Error::NodeIdNotFound(inner)));
    assert_eq!(arena.children_of(root), vec![a]);
}

#[test]
fn a_bookmark_takes_no_children() {
    let (mut arena, root) = BookmarkArena::create_root();
    let b = bookmark(&mut arena, root, "https://example.com/");
    assert_eq!(arena.add_folder(b, "x".into()), Err(Error::CannotAppendAsLastChild()));
    assert_eq!(
        arena.insert(b, NodeData::Folder(Folder::new("x".into())), Position::FirstChild),
        Err(Error::CannotPrependAsFirstChild())
    );
    let f = folder(&mut arena, root, "f");
    assert_eq!(arena.prepend_to_child(f, b), Err(Error::CannotPrependAsFirstChild()));
    assert_eq!(arena.append_to_child(f, b), Err(Error::CannotAppendAsLastChild()));
    assert!(arena.children_of(b).is_empty());
}

#[test]
fn add_bookmark_rejects_what_is_not_a_web_url() {
    let (mut arena, root) = BookmarkArena::create_root();
    let before = arena.to_nested_json(root, usize::MAX).unwrap();
    assert_eq!(
        arena.add_bookmark(root, "not-a-url".to_string(), None),
        Err(Error::NotWebUrl("not-a-url".to_string()))
    );
    assert_eq!(
        arena.add_bookmark(root, "ftp://example.com/file".to_string(), None),
        Err(Error::NotWebUrl("ftp://example.com/file".to_string()))
    );
    assert_eq!(
        arena.add_bookmark(root, "mailto:someone@example.com".to_string(), Some("Mail".into())),
        Err(Error::NotWebUrl("mailto:someone@example.com".to_string()))
    );
    assert!(arena.children_of(root).is_empty());
    assert_eq!(arena.to_nested_json(root, usize::MAX).unwrap(), before);
}

#[test]
fn add_bookmark_keeps_the_address_and_defaults_the_title() {
    let (mut arena, root) = BookmarkArena::create_root();
    let plain = arena.add_bookmark(root, "https://example.com".to_string(), None).unwrap();
    let titled = arena
        .add_bookmark(root, "HTTP://Example.com/a?b=c".to_string(), Some("Example".to_string()))
        .unwrap();
    assert_eq!(
        arena.get(plain),
        Ok(&NodeData::Bookmark(Bookmark {
            title: "https://example.com".to_string(),
            url: "https://example.com".to_string()
        }))
    );
    assert_eq!(
        arena.get(titled),
        Ok(&NodeData::Bookmark(Bookmark {
            title: "Example".to_string(),
            url: "HTTP://Example.com/a?b=c".to_string()
        }))
    );
    assert_eq!(arena.children_of(root), vec![plain, titled]);
}

#[test]
fn remove_bookmark_refuses_the_root() {
    let (mut arena, root) = BookmarkArena::create_root();
    let f = folder(&mut arena, root, "f");
    bookmark(&mut arena, f, "https://example.com/");
    let before = arena.to_nested_json(root, usize::MAX).unwrap();
    assert_eq!(arena.remove_bookmark(root), Err(Error::CannotRemoveRoot()));
    assert_eq!(arena.remove(root), Err(Error::CannotRemoveRoot()));
    assert_eq!(arena.to_nested_json(root, usize::MAX).unwrap(), before);
}

#[test]
fn remove_bookmark_drops_the_whole_subtree() {
    let (mut arena, root) = BookmarkArena::create_root();
    let a = folder(&mut arena, root, "a");
    let b = folder(&mut arena, a, "b");
    let c = bookmark(&mut arena, b, "https://example.com/c");
    let d = bookmark(&mut arena, a, "https://example.com/d");
    let e = folder(&mut arena, root, "e");
    assert_eq!(arena.remove_bookmark(a), Ok(()));
    for id in [a, b, c, d] {
        assert!(!arena.contains(id));
        assert_eq!(arena.get(id), Err(Error::NodeNotFound(id)));
    }
    assert_eq!(arena.children_of(root), vec![e]);
    assert_eq!(arena.remove_bookmark(a), Err(Error::NodeIdNotFound(a)));
    assert_eq!(arena.remove_bookmark(e), Ok(()));
    assert!(arena.children_of(root).is_empty());
}

#[test]
fn update_title_renames_folders_and_bookmarks() {
    let (mut arena, root) = BookmarkArena::create_root();
    let f = folder(&mut arena, root, "old");
    let b = bookmark(&mut arena, f, "https://example.com/");
    arena.set_is_open(f, true).unwrap();
    assert_eq!(arena.update_title(f, "new".into()), Ok(()));
    assert_eq!(arena.update_title(b, "page".into()), Ok(()));
    assert_eq!(
        arena.get(f),
        Ok(&NodeData::Folder(Folder { title: "new".into(), is_open: true, is_toolbar: false }))
    );
    assert_eq!(
        arena.get(b),
        Ok(&NodeData::Bookmark(Bookmark { title: "page".into(), url: "https://example.com/".into() }))
    );
    assert_eq!(arena.children_of(f), vec![b]);
    assert_eq!(arena.update_title(123, "x".into()), Err(Error::NodeNotFound(123)));
}

#[test]
fn set_is_open_twice_keeps_the_folder_open() {
    let (mut arena, root) = BookmarkArena::create_root();
    let f = folder(&mut arena, root, "f");
    let open = |arena: &BookmarkArena| match arena.get(f) {
        Ok(NodeData::Folder(folder)) => folder.is_open,
        _ => panic!("not a folder"),
    };
    assert!(!open(&arena));
    assert_eq!(arena.set_is_open(f, true), Ok(()));
    assert!(open(&arena));
    assert_eq!(arena.set_is_open(f, true), Ok(()));
    assert!(open(&arena));
    assert_eq!(arena.set_is_open(f, false), Ok(()));
    assert!(!open(&arena));
    assert_eq!(arena.set_is_open(55, true), Err(Error::NodeNotFound(55)));
}

#[test]
fn toggle_is_open_flips_a_folder_and_passes_over_a_bookmark() {
    let (mut arena, root) = BookmarkArena::create_root();
    let f = folder(&mut arena, root, "f");
    let b = bookmark(&mut arena, root, "https://example.com/");
    assert_eq!(arena.toggle_is_open(f), Ok(()));
    assert_eq!(
        arena.get(f),
        Ok(&NodeData::Folder(Folder { title: "f".into(), is_open: true, is_toolbar: false }))
    );
    assert_eq!(arena.toggle_is_open(f), Ok(()));
    assert_eq!(
        arena.get(f),
        Ok(&NodeData::Folder(Folder { title: "f".into(), is_open: false, is_toolbar: false }))
    );
    let before = arena.get(b).unwrap().clone();
    assert_eq!(arena.toggle_is_open(b), Ok(()));
    assert_eq!(arena.set_is_open(b, true), Ok(()));
    assert_eq!(arena.get(b), Ok(&before));
    assert_eq!(arena.toggle_is_open(77), Err(Error::NodeNotFound(77)));
}

#[test]
fn move_into_own_subtree_is_refused() {
    let (mut arena, root) = BookmarkArena::create_root();
    let a = folder(&mut arena, root, "A");
    let b = folder(&mut arena, a, "B");
    let c = folder(&mut arena, b, "C");
    let before = arena.to_nested_json(root, usize::MAX).unwrap();
    assert_eq!(arena.move_node(a, Destination::FirstChild(b)), Err(Error::CannotMoveToDescendant()));
    assert_eq!(arena.move_node(a, Destination::End(c)), Err(Error::CannotMoveToDescendant()));
    assert_eq!(arena.move_node(a, Destination::End(a)), Err(Error::CannotMoveToDescendant()));
    assert_eq!(arena.move_node(a, Destination::Before(c)), Err(Error::CannotMoveToDescendant()));
    assert_eq!(arena.move_node(a, Destination::After(b)), Err(Error::CannotMoveToDescendant()));
    assert_eq!(arena.to_nested_json(root, usize::MAX).unwrap(), before);
}

#[test]
fn move_refuses_the_root_and_missing_nodes() {
    let (mut arena, root) = BookmarkArena::create_root();
    let a = folder(&mut arena, root, "a");
    assert_eq!(arena.move_node(root, Destination::End(a)), Err(Error::CannotMoveRoot()));
    assert_eq!(arena.move_node(50, Destination::End(a)), Err(Error::NodeIdNotFound(50)));
    assert_eq!(arena.move_node(a, Destination::End(60)), Err(Error::NodeIdNotFound(60)));
    assert_eq!(arena.move_node(a, Destination::Before(root)), Err(Error::NodeIdNotFound(root)));
    assert_eq!(arena.move_node(a, Destination::After(root)), Err(Error::NodeIdNotFound(root)));
    assert_eq!(arena.children_of(root), vec![a]);
}

#[test]
fn move_to_the_same_place_is_refused() {
    let (mut arena, root) = BookmarkArena::create_root();
    let a = folder(&mut arena, root, "a");
    let b = folder(&mut arena, root, "b");
    let c = folder(&mut arena, root, "c");
    let same = Err(Error::SameSourceAndDestination());
    assert_eq!(arena.move_node(a, Destination::FirstChild(root)), same);
    assert_eq!(arena.move_node(c, Destination::End(root)), same);
    assert_eq!(arena.move_node(a, Destination::Before(b)), same);
    assert_eq!(arena.move_node(b, Destination::After(a)), same);
    assert_eq!(arena.move_node(b, Destination::Before(b)), same);
    assert_eq!(arena.move_node(b, Destination::After(b)), same);
    assert_eq!(arena.children_of(root), vec![a, b, c]);
}

#[test]
fn insert_before_places_the_node_exactly() {
    let (mut arena, root) = BookmarkArena::create_root();
    let first = folder(&mut arena, root, "first");
    let y = folder(&mut arena, root, "Y");
    let third = folder(&mut arena, root, "third");
    let x = folder(&mut arena, root, "X");
    assert_eq!(arena.children_of(root), vec![first, y, third, x]);
    assert_eq!(arena.insert_before(x, y), Ok(()));
    assert_eq!(arena.children_of(root), vec![first, x, y, third]);
}

#[test]
fn moves_within_one_folder_reorder_its_children() {
    let (mut arena, root) = BookmarkArena::create_root();
    let a = folder(&mut arena, root, "a");
    let b = folder(&mut arena, root, "b");
    let c = folder(&mut arena, root, "c");
    let d = folder(&mut arena, root, "d");
    assert_eq!(arena.insert_after(a, c), Ok(()));
    assert_eq!(arena.children_of(root), vec![b, c, a, d]);
    assert_eq!(arena.insert_before(d, b), Ok(()));
    assert_eq!(arena.children_of(root), vec![d, b, c, a]);
    assert_eq!(arena.append_to_child(d, root), Ok(()));
    assert_eq!(arena.children_of(root), vec![b, c, a, d]);
    assert_eq!(arena.prepend_to_child(a, root), Ok(()));
    assert_eq!(arena.children_of(root), vec![a, b, c, d]);
    assert_eq!(arena.insert_after(b, d), Ok(()));
    assert_eq!(arena.children_of(root), vec![a, c, d, b]);
}

#[test]
fn moves_between_folders_carry_the_subtree() {
    let (mut arena, root) = BookmarkArena::create_root();
    let a = folder(&mut arena, root, "a");
    let b = folder(&mut arena, root, "b");
    let inner = folder(&mut arena, a, "inner");
    let page = bookmark(&mut arena, inner, "https://example.com/");
    let other = bookmark(&mut arena, b, "https://example.org/");
    arena.set_is_open(inner, true).unwrap();
    assert_eq!(arena.append_to_child(inner, b), Ok(()));
    assert_eq!(arena.children_of(a), Vec::<usize>::new());
    assert_eq!(arena.children_of(b), vec![other, inner]);
    assert_eq!(arena.parent_of(inner), Some(b));
    assert_eq!(arena.children_of(inner), vec![page]);
    assert_eq!(arena.parent_of(page), Some(inner));
    assert_eq!(
        arena.get(inner),
        Ok(&NodeData::Folder(Folder { title: "inner".into(), is_open: true, is_toolbar: false }))
    );
    assert_eq!(arena.insert_before(page, other), Ok(()));
    assert_eq!(arena.children_of(b), vec![page, other, inner]);
    assert_eq!(arena.prepend_to_child(other, a), Ok(()));
    assert_eq!(arena.children_of(a), vec![other]);
    assert_eq!(arena.children_of(b), vec![page, inner]);
    assert!(arena.in_subtree(b, page));
    assert!(arena.in_subtree(root, other));
    assert!(!arena.in_subtree(b, other));
    assert!(!arena.in_subtree(b, 99));
}

fn with_toolbar() -> (BookmarkArena, usize, usize) {
    let (mut arena, root) = BookmarkArena::create_root();
    let bar = arena
        .insert(root, NodeData::Folder(Folder::toolbar("Toolbar".into())), Position::End)
        .unwrap();
    (arena, root, bar)
}

#[test]
fn the_toolbar_folder_is_single_and_below_the_root() {
    let (mut arena, root, bar) = with_toolbar();
    assert_eq!(arena.toolbar_folder(), Some(bar));
    let f = folder(&mut arena, root, "f");
    let second = || NodeData::Folder(Folder::toolbar("Second".into()));
    assert_eq!(arena.insert(root, second(), Position::End), Err(Error::ToolbarFolderProtected()));
    assert_eq!(arena.insert(f, second(), Position::End), Err(Error::ToolbarFolderProtected()));
    assert_eq!(arena.toolbar_folder(), Some(bar));
    let (mut fresh, fresh_root) = BookmarkArena::create_root();
    let g = folder(&mut fresh, fresh_root, "g");
    assert_eq!(fresh.insert(g, second(), Position::End), Err(Error::ToolbarFolderProtected()));
    assert_eq!(fresh.toolbar_folder(), None);
}

#[test]
fn the_toolbar_folder_stays_where_it_is() {
    let (mut arena, root, bar) = with_toolbar();
    let f = folder(&mut arena, root, "f");
    assert_eq!(arena.remove_bookmark(bar), Err(Error::ToolbarFolderProtected()));
    assert_eq!(arena.move_node(bar, Destination::End(f)), Err(Error::ToolbarFolderProtected()));
    assert_eq!(arena.insert_after(bar, f), Err(Error::ToolbarFolderProtected()));
    assert_eq!(arena.children_of(root), vec![bar, f]);
    assert_eq!(arena.update_title(bar, "Bar".into()), Ok(()));
    assert_eq!(arena.toggle_is_open(bar), Ok(()));
    assert_eq!(arena.toolbar_folder(), Some(bar));
    assert_eq!(arena.insert_before(f, bar), Ok(()));
    assert_eq!(arena.children_of(root), vec![f, bar]);
}

#[test]
fn append_bookmark_to_toolbar_needs_a_toolbar_folder() {
    let (mut arena, root) = BookmarkArena::create_root();
    assert_eq!(
        arena.append_bookmark_to_toolbar("https://example.com/".into(), None),
        Err(Error::ToolbarFolderNotFound())
    );
    assert_eq!(
        arena.append_bookmark_to_toolbar("nonsense".into(), None),
        Err(Error::ToolbarFolderNotFound())
    );
    assert!(arena.children_of(root).is_empty());
    assert!(arena.toolbar_bookmarks().is_empty());
}

#[test]
fn append_bookmark_to_toolbar_adds_at_the_end() {
    let (mut arena, _, bar) = with_toolbar();
    let one = arena.append_bookmark_to_toolbar("https://one.example/".into(), Some("One".into())).unwrap();
    let sub = folder(&mut arena, bar, "sub");
    let two = arena.append_bookmark_to_toolbar("https://two.example/".into(), None).unwrap();
    assert_eq!(
        arena.append_bookmark_to_toolbar("two.example".into(), None),
        Err(Error::NotWebUrl("two.example".into()))
    );
    assert_eq!(arena.children_of(bar), vec![one, sub, two]);
    assert_eq!(
        arena.toolbar_bookmarks(),
        vec![
            (one, Bookmark { title: "One".into(), url: "https://one.example/".into() }),
            (two, Bookmark { title: "https://two.example/".into(), url: "https://two.example/".into() }),
        ]
    );
}

#[test]
fn root_and_children_folders_lists_the_first_level() {
    let (mut arena, root, bar) = with_toolbar();
    let a = folder(&mut arena, root, "a");
    bookmark(&mut arena, root, "https://example.com/");
    let b = folder(&mut arena, root, "b");
    folder(&mut arena, a, "deep");
    arena.set_is_open(b, true).unwrap();
    assert_eq!(
        arena.root_and_children_folders(),
        vec![
            (root, Folder { title: "Root".into(), is_open: false, is_toolbar: false }),
            (bar, Folder { title: "Toolbar".into(), is_open: false, is_toolbar: true }),
            (a, Folder { title: "a".into(), is_open: false, is_toolbar: false }),
            (b, Folder { title: "b".into(), is_open: true, is_toolbar: false }),
        ]
    );
}
