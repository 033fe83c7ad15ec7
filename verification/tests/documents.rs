use bookmark_tree::arena::BookmarkArena;
use bookmark_tree::commands::{add_bookmark, get_nested_json, SUMMARY_DEPTH};
use bookmark_tree::error::Error;
use bookmark_tree::json::{decode, encode, member, Json, Member};
use bookmark_tree::load::read_node;
use bookmark_tree::node::{Bookmark, Folder, NodeData};
use bookmark_tree::tree::Position;
use bookmark_tree::web::{is_web_scheme, is_web_url};

fn pair(name: &str, value: Json) -> Member {
    Member { name: name.to_string(), value }
}

fn bookmark_doc(id: u64, title: &str, url: &str) -> Json {
    Json::Object(vec![
        pair("id", Json::Number(id)),
        pair("title", Json::Text(title.to_string())),
        pair("url", Json::Text(url.to_string())),
    ])
}

fn folder_doc(id: u64, title: &str, is_open: bool, is_toolbar: bool, children: Vec<Json>) -> Json {
    Json::Object(vec![
        pair("id", Json::Number(id)),
        pair("title", Json::Text(title.to_string())),
        pair("is_open", Json::Bool(is_open)),
        pair("is_toolbar", Json::Bool(is_toolbar)),
        pair("children", Json::Array(children)),
    ])
}

fn sample() -> (BookmarkArena, usize, usize, usize) {
    let (mut arena, root) = BookmarkArena::create_root();
    let f = arena.add_folder(root, "Work".to_string()).unwrap();
    let b = arena
        .add_bookmark(f, "https://example.com".to_string(), Some("Example".to_string()))
        .unwrap();
    (arena, root, f, b)
}

#[test]
fn nested_document_shows_folder_and_bookmark() {
    let (arena, root, f, b) = sample();
    assert_eq!(
        arena.nested(root, 2),
        Ok(folder_doc(
            root as u64,
            "Root",
            false,
            false,
            vec![folder_doc(
                f as u64,
                "Work",
                false,
                false,
                vec![bookmark_doc(b as u64, "Example", "https://example.com")]
            )]
        ))
    );
    assert_eq!(
        arena.to_nested_json(root, 2).unwrap(),
        "{\"children\":[{\"children\":[{\"id\":2,\"title\":\"Example\",\"url\":\"https://example.com\"}],\
         \"id\":1,\"is_open\":false,\"is_toolbar\":false,\"title\":\"Work\"}],\
         \"id\":0,\"is_open\":false,\"is_toolbar\":false,\"title\":\"Root\"}"
    );
}

#[test]
fn nested_document_stops_at_the_depth() {
    let (arena, root, f, b) = sample();
    assert_eq!(arena.nested(root, 0), Ok(folder_doc(root as u64, "Root", false, false, vec![])));
    assert_eq!(
        arena.nested(root, 1),
        Ok(folder_doc(
            root as u64,
            "Root",
            false,
            false,
            vec![folder_doc(f as u64, "Work", false, false, vec![])]
        ))
    );
    assert_eq!(arena.nested(root, 2), arena.nested(root, usize::MAX));
    assert_eq!(
        arena.nested(f, 5),
        Ok(folder_doc(
            f as u64,
            "Work",
            false,
            false,
            vec![bookmark_doc(b as u64, "Example", "https://example.com")]
        ))
    );
    assert_eq!(arena.nested(b, 0), Ok(bookmark_doc(b as u64, "Example", "https://example.com")));
    assert_eq!(
        arena.to_nested_json(root, 0).unwrap(),
        "{\"children\":[],\"id\":0,\"is_open\":false,\"is_toolbar\":false,\"title\":\"Root\"}"
    );
}

#[test]
fn nested_document_reports_a_missing_node() {
    let (arena, _, _, _) = sample();
    assert_eq!(arena.nested(9, 3), Err(Error::NodeIdNotFound(9)));
    assert_eq!(arena.to_nested_json(9, 3), Err(Error::NodeIdNotFound(9)));
}

#[test]
fn text_is_escaped_as_json() {
    let (mut arena, root) = BookmarkArena::create_root();
    arena.update_title(root, "a \"quoted\"\ttitle\n".to_string()).unwrap();
    assert_eq!(
        arena.to_nested_json(root, 1).unwrap(),
        "{\"children\":[],\"id\":0,\"is_open\":false,\"is_toolbar\":false,\
         \"title\":\"a \\\"quoted\\\"\\ttitle\\n\"}"
    );
}

#[test]
fn snapshot_round_trip_serializes_identically() {
    let (mut arena, root) = BookmarkArena::create_root();
    let bar = arena
        .insert(root, NodeData::Folder(Folder::toolbar("Toolbar".into())), Position::End)
        .unwrap();
    let a = arena.add_folder(root, "a".into()).unwrap();
    let b = arena.add_folder(a, "b \u{1F600} \"x\"".into()).unwrap();
    let gone = arena.add_folder(root, "gone".into()).unwrap();
    arena.add_bookmark(b, "https://example.com/?q=1&r=2".into(), None).unwrap();
    arena.append_bookmark_to_toolbar("http://example.org".into(), Some("Org".into())).unwrap();
    arena.remove_bookmark(gone).unwrap();
    arena.set_is_open(b, true).unwrap();
    arena.prepend_to_child(b, root).unwrap();
    arena.insert_after(a, b).unwrap();
    let bytes = arena.to_persisted();
    assert_eq!(bytes, arena.to_nested_json(root, usize::MAX).unwrap().into_bytes());
    let copy = BookmarkArena::from_persisted(&bytes).unwrap();
    assert_eq!(copy.root(), root);
    assert_eq!(copy.to_persisted(), bytes);
    for depth in [0, 1, 2, 3, usize::MAX] {
        assert_eq!(copy.to_nested_json(root, depth), arena.to_nested_json(root, depth));
    }
    assert_eq!(copy.children_of(root), vec![b, a, bar]);
    assert_eq!(copy.toolbar_folder(), Some(bar));
    assert_eq!(copy.parent_of(b), Some(root));
    assert!(!copy.contains(gone));
    for id in [root, bar, a, b] {
        assert_eq!(copy.get(id), arena.get(id));
        assert_eq!(copy.children_of(id), arena.children_of(id));
    }
}

#[test]
fn a_loaded_tree_hands_out_unused_identifiers() {
    let doc = folder_doc(7, "Top", true, false, vec![bookmark_doc(40, "x", "https://x.example/"), folder_doc(3, "f", false, true, vec![])]);
    let mut arena = BookmarkArena::from_document(&doc).unwrap();
    assert_eq!(arena.root(), 7);
    assert_eq!(arena.children_of(7), vec![40, 3]);
    assert_eq!(arena.toolbar_folder(), Some(3));
    assert_eq!(arena.nested(7, usize::MAX), Ok(doc));
    let new = arena.add_folder(3, "n".into()).unwrap();
    assert_eq!(new, 41);
    assert_eq!(arena.children_of(3), vec![41]);
}

#[test]
fn from_document_passes_over_other_members() {
    let doc = Json::Object(vec![
        pair("note", Json::Null),
        pair("children", Json::Array(vec![Json::Object(vec![
            pair("url", Json::Text("https://example.com/".into())),
            pair("children", Json::Array(vec![Json::Null])),
            pair("title", Json::Text("first".into())),
            pair("id", Json::Number(1)),
            pair("title", Json::Text("t".into())),
        ])])),
        pair("is_toolbar", Json::Bool(false)),
        pair("is_open", Json::Bool(true)),
        pair("title", Json::Text("r".into())),
        pair("id", Json::Number(0)),
    ]);
    let arena = BookmarkArena::from_document(&doc).unwrap();
    assert_eq!(
        arena.nested(0, usize::MAX),
        Ok(folder_doc(0, "r", true, false, vec![bookmark_doc(1, "t", "https://example.com/")]))
    );
}

fn refused(doc: Json) -> bool {
    matches!(BookmarkArena::from_document(&doc), Err(Error::Json(_)))
}

#[test]
fn from_document_refuses_what_describes_no_tree() {
    assert!(refused(Json::Null));
    assert!(refused(Json::Array(vec![])));
    assert!(refused(bookmark_doc(0, "b", "https://example.com/")));
    assert!(refused(folder_doc(0, "r", false, true, vec![])));
    assert!(refused(folder_doc(0, "r", false, false, vec![Json::Number(1)])));
    assert!(refused(folder_doc(0, "r", false, false, vec![folder_doc(0, "again", false, false, vec![])])));
    assert!(refused(folder_doc(
        0,
        "r",
        false,
        false,
        vec![bookmark_doc(1, "a", "https://a.example/"), folder_doc(2, "f", false, false, vec![bookmark_doc(1, "b", "https://b.example/")])]
    )));
    assert!(refused(folder_doc(
        0,
        "r",
        false,
        false,
        vec![folder_doc(1, "one", false, true, vec![]), folder_doc(2, "two", false, true, vec![])]
    )));
    assert!(refused(folder_doc(
        0,
        "r",
        false,
        false,
        vec![folder_doc(1, "f", false, false, vec![folder_doc(2, "deep bar", false, true, vec![])])]
    )));
    assert!(refused(folder_doc(u64::MAX, "r", false, false, vec![])));
    assert!(refused(Json::Object(vec![
        pair("id", Json::Numeral("-1".into())),
        pair("title", Json::Text("r".into())),
        pair("is_open", Json::Bool(false)),
        pair("is_toolbar", Json::Bool(false)),
        pair("children", Json::Array(vec![])),
    ])));
    assert!(refused(Json::Object(vec![
        pair("id", Json::Number(0)),
        pair("title", Json::Text("r".into())),
        pair("is_open", Json::Bool(false)),
        pair("children", Json::Array(vec![])),
    ])));
    assert!(refused(Json::Object(vec![
        pair("id", Json::Number(0)),
        pair("title", Json::Number(5)),
        pair("is_open", Json::Bool(false)),
        pair("is_toolbar", Json::Bool(false)),
        pair("children", Json::Array(vec![])),
    ])));
    assert!(refused(folder_doc(
        0,
        "r",
        false,
        false,
        vec![Json::Object(vec![
            pair("id", Json::Number(1)),
            pair("title", Json::Text("b".into())),
            pair("url", Json::Number(3)),
        ])]
    )));
}

#[test]
fn from_persisted_refuses_malformed_bytes() {
    assert!(matches!(BookmarkArena::from_persisted(b""), Err(Error::Json(_))));
    assert!(matches!(BookmarkArena::from_persisted(b"{\"id\":0,"), Err(Error::Json(_))));
    assert!(matches!(BookmarkArena::from_persisted(b"[1, 2]"), Err(Error::Json(_))));
    assert!(matches!(BookmarkArena::from_persisted(&[0xff, 0xfe]), Err(Error::Json(_))));
    assert!(matches!(
        BookmarkArena::from_persisted(b"{\"id\":1.5,\"title\":\"r\",\"is_open\":false,\"is_toolbar\":false,\"children\":[]}"),
        Err(Error::Json(_))
    ));
}

#[test]
fn from_persisted_reads_a_written_document() {
    let text = " { \"title\" : \"r\", \"id\" : 5, \"is_open\" : true, \"is_toolbar\" : false,\n \
                \"children\" : [ { \"id\" : 2, \"url\" : \"https://example.com/\\u00e9\", \"title\" : \"caf\\u00e9\" } ] } ";
    let arena = BookmarkArena::from_persisted(text.as_bytes()).unwrap();
    assert_eq!(arena.root(), 5);
    assert_eq!(arena.children_of(5), vec![2]);
    assert_eq!(
        arena.get(2),
        Ok(&NodeData::Bookmark(Bookmark { title: "caf\u{e9}".into(), url: "https://example.com/\u{e9}".into() }))
    );
}

#[test]
fn encode_writes_members_by_name() {
    let doc = Json::Object(vec![
        pair("b", Json::Array(vec![Json::Null, Json::Bool(true), Json::Number(u64::MAX)])),
        pair("a", Json::Text("x".into())),
        pair("b", Json::Number(1)),
    ]);
    assert_eq!(encode(&doc), "{\"a\":\"x\",\"b\":1}");
    assert_eq!(encode(&Json::Array(vec![Json::Number(0), Json::Text("\u{e9}".into())])), "[0,\"\u{e9}\"]");
}

#[test]
fn decode_reads_values_of_every_kind() {
    assert_eq!(
        decode(b"{\"z\":[null,true,18446744073709551615,-3,2.5,\"s\"],\"a\":{}}"),
        Ok(Json::Object(vec![
            pair("a", Json::Object(vec![])),
            pair(
                "z",
                Json::Array(vec![
                    Json::Null,
                    Json::Bool(true),
                    Json::Number(u64::MAX),
                    Json::Numeral("-3".into()),
                    Json::Numeral("2.5".into()),
                    Json::Text("s".into()),
                ])
            ),
        ]))
    );
    assert!(matches!(decode(b"{"), Err(Error::Json(_))));
    assert!(matches!(decode(b"1 2"), Err(Error::Json(_))));
}

#[test]
fn member_finds_the_last_of_equal_names() {
    let members = vec![pair("a", Json::Number(1)), pair("b", Json::Null), pair("a", Json::Number(2))];
    assert_eq!(member(&members, "a"), Some(&Json::Number(2)));
    assert_eq!(member(&members, "b"), Some(&Json::Null));
    assert_eq!(member(&members, "c"), None);
}

#[test]
fn read_node_reads_bookmarks_and_folders() {
    assert_eq!(
        read_node(&bookmark_doc(3, "t", "u")),
        Some((3, NodeData::Bookmark(Bookmark { title: "t".into(), url: "u".into() })))
    );
    assert_eq!(
        read_node(&folder_doc(4, "f", true, true, vec![Json::Null])),
        Some((4, NodeData::Folder(Folder { title: "f".into(), is_open: true, is_toolbar: true })))
    );
    assert_eq!(read_node(&Json::Text("x".into())), None);
    assert_eq!(read_node(&folder_doc(u64::MAX, "f", true, true, vec![])), None);
}

#[test]
fn web_schemes_are_http_and_https() {
    assert!(is_web_scheme(&Some("http".to_string())));
    assert!(is_web_scheme(&Some("https".to_string())));
    assert!(!is_web_scheme(&Some("ftp".to_string())));
    assert!(!is_web_scheme(&Some("HTTP".to_string())));
    assert!(!is_web_scheme(&Some("".to_string())));
    assert!(!is_web_scheme(&None));
}

#[test]
fn web_urls_are_absolute_http_and_https_urls() {
    assert!(is_web_url("https://example.com"));
    assert!(is_web_url("http://example.com/a/b?c#d"));
    assert!(is_web_url("HTTPS://EXAMPLE.COM"));
    assert!(is_web_url("  https://example.com  "));
    assert!(!is_web_url("not-a-url"));
    assert!(!is_web_url("example.com"));
    assert!(!is_web_url("/relative/path"));
    assert!(!is_web_url("ftp://example.com"));
    assert!(!is_web_url("file:///tmp/x"));
    assert!(!is_web_url("javascript:alert(1)"));
    assert!(!is_web_url("https://"));
    assert!(!is_web_url(""));
}

#[test]
fn commands_export_the_first_level() {
    let (mut arena, root) = BookmarkArena::create_root();
    let f = arena.add_folder(root, "f".into()).unwrap();
    arena.add_folder(f, "hidden".into()).unwrap();
    assert_eq!(SUMMARY_DEPTH, 1);
    assert_eq!(get_nested_json(&arena), arena.to_nested_json(root, 1));
    let payload = add_bookmark(&mut arena, "https://example.com/".into(), Some("E".into())).unwrap();
    assert_eq!(
        payload,
        "{\"children\":[{\"children\":[],\"id\":1,\"is_open\":false,\"is_toolbar\":false,\"title\":\"f\"},\
         {\"id\":3,\"title\":\"E\",\"url\":\"https://example.com/\"}],\
         \"id\":0,\"is_open\":false,\"is_toolbar\":false,\"title\":\"Root\"}"
    );
    assert_eq!(Ok(payload), get_nested_json(&arena));
    assert_eq!(
        add_bookmark(&mut arena, "nope".into(), None),
        Err(Error::NotWebUrl("nope".into()))
    );
    assert_eq!(arena.children_of(root), vec![f, 3]);
}

#[test]
fn a_snapshot_nested_deeper_than_the_reader_allows_is_refused() {
    let (mut arena, root) = BookmarkArena::create_root();
    let mut parent = root;
    for level in 0..70 {
        parent = arena.add_folder(parent, format!("level {}", level)).unwrap();
    }
    let document = arena.nested(root, usize::MAX).unwrap();
    let copy = BookmarkArena::from_document(&document).unwrap();
    assert_eq!(copy.nested(root, usize::MAX), Ok(document));
    let bytes = arena.to_persisted();
    assert!(matches!(BookmarkArena::from_persisted(&bytes), Err(Error::Json(_))));
    let shallow = arena.to_nested_json(root, 40).unwrap();
    let part = BookmarkArena::from_persisted(shallow.as_bytes()).unwrap();
    assert_eq!(part.to_nested_json(root, usize::MAX), Ok(shallow));
}
