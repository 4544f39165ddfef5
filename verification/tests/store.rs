use solid_server::store::LdpStore;

fn body_of(store: &LdpStore, path: &str) -> Option<Vec<u8>> {
    store.get(path).map(|e| e.body)
}

#[test]
fn new_store_holds_root_container() {
    let store = LdpStore::new();
    let root = store.get("/").expect("root exists");
    assert!(root.is_container);
    assert_eq!(root.content_type, "text/turtle");
    assert!(root.body.is_empty());
    assert!(store.contains("/"));
    assert!(!store.contains("/missing"));
}

#[test]
fn default_store_holds_root_container() {
    let store = LdpStore::default();
    assert!(store.contains("/"));
    assert!(store.get("/").unwrap().is_container);
}

#[test]
fn put_then_get_returns_what_was_written() {
    let mut store = LdpStore::new();
    let created = store.put("/doc.txt", b"hello".to_vec(), "text/plain".to_string());
    assert!(created);
    let e = store.get("/doc.txt").expect("stored");
    assert_eq!(e.body, b"hello".to_vec());
    assert_eq!(e.content_type, "text/plain");
    assert!(!e.is_container);
}

#[test]
fn second_put_overwrites_and_reports_no_create() {
    let mut store = LdpStore::new();
    assert!(store.put("/doc.txt", b"one".to_vec(), "text/plain".to_string()));
    assert!(!store.put("/doc.txt", b"two".to_vec(), "text/turtle".to_string()));
    let e = store.get("/doc.txt").unwrap();
    assert_eq!(e.body, b"two".to_vec());
    assert_eq!(e.content_type, "text/turtle");
}

#[test]
fn put_creates_ancestor_containers() {
    let mut store = LdpStore::new();
    store.put("/a/b/c.ttl", b"x".to_vec(), "text/turtle".to_string());
    for anc in ["/", "/a/", "/a/b/"] {
        let e = store.get(anc).expect("ancestor exists");
        assert!(e.is_container);
        assert_eq!(e.content_type, "text/turtle");
        assert!(e.body.is_empty());
    }
    assert!(!store.contains("/a"));
    assert!(!store.contains("/a/b"));
    assert!(!store.contains("/a/b/c.ttl/"));
}

#[test]
fn put_container_creates_its_parents_only() {
    let mut store = LdpStore::new();
    assert!(store.put("/x/y/", Vec::new(), "text/turtle".to_string()));
    assert!(store.contains("/x/"));
    let y = store.get("/x/y/").unwrap();
    assert!(y.is_container);
    assert!(!store.contains("/x/y/y/"));
}

#[test]
fn existing_ancestor_is_kept() {
    let mut store = LdpStore::new();
    store.put("/a/", b"meta".to_vec(), "application/ld+json".to_string());
    store.put("/a/b.txt", b"b".to_vec(), "text/plain".to_string());
    let a = store.get("/a/").unwrap();
    assert_eq!(a.body, b"meta".to_vec());
    assert_eq!(a.content_type, "application/ld+json");
}

#[test]
fn path_without_leading_slash_is_the_same_resource() {
    let mut store = LdpStore::new();
    assert!(store.put("notes/n1", b"n".to_vec(), "text/plain".to_string()));
    assert_eq!(body_of(&store, "/notes/n1"), Some(b"n".to_vec()));
    assert!(store.contains("notes/n1"));
    assert!(store.contains("/notes/"));
    assert!(!store.put("/notes/n1", b"m".to_vec(), "text/plain".to_string()));
}

#[test]
fn delete_reports_whether_resource_existed() {
    let mut store = LdpStore::new();
    store.put("/d/e.txt", b"e".to_vec(), "text/plain".to_string());
    assert!(store.delete("/d/e.txt"));
    assert!(store.get("/d/e.txt").is_none());
    assert!(!store.delete("/d/e.txt"));
    assert!(store.contains("/d/"));
    assert!(!store.delete("/never"));
}

#[test]
fn is_container_follows_trailing_slash() {
    let store = LdpStore::new();
    assert!(store.is_container("/x/"));
    assert!(store.is_container("x/"));
    assert!(!store.is_container("/x"));
    assert!(!store.is_container("x"));
    assert!(store.is_container(""));
}

#[test]
fn root_cannot_be_deleted() {
    let mut store = LdpStore::new();
    assert!(!store.delete("/"));
    assert!(!store.delete(""));
    let root = store.get("/").expect("root stays");
    assert!(root.is_container);
    assert_eq!(root.content_type, "text/turtle");
}

#[test]
fn put_root_overwrites_existing_root() {
    let mut store = LdpStore::new();
    assert!(!store.put("/", b"r".to_vec(), "text/plain".to_string()));
    assert_eq!(body_of(&store, "/"), Some(b"r".to_vec()));
    assert!(store.get("/").unwrap().is_container);
}

#[test]
fn put_reports_create_before_ancestors_are_added() {
    let mut store = LdpStore::new();
    assert!(store.put("/p/q/", Vec::new(), "text/turtle".to_string()));
    // "/p/" was just created as an ancestor; writing it now is no create
    assert!(!store.put("/p/", Vec::new(), "text/turtle".to_string()));
    // a fresh container path is a create even though its parent exists
    assert!(store.put("/p/r/", Vec::new(), "text/turtle".to_string()));
}

#[test]
fn doubled_slashes_map_onto_root() {
    let mut store = LdpStore::default();
    store.put("//x", b"x".to_vec(), "text/plain".to_string());
    assert!(store.contains("/"));
    assert!(!store.contains("//"));
    store.put("///x/y", b"y".to_vec(), "text/plain".to_string());
    assert!(store.contains("///"));
    assert!(store.contains("///x/"));
    assert!(!store.contains("//"));
}

#[test]
fn trailing_slashes_do_not_make_self_ancestor() {
    let mut store = LdpStore::default();
    assert!(store.put("/a//", Vec::new(), "text/turtle".to_string()));
    assert!(store.contains("/"));
    assert!(!store.contains("/a/"));
    assert!(store.contains("/a//"));
}

#[test]
fn ancestors_are_created_at_any_depth() {
    let mut store = LdpStore::new();
    let mut path = String::new();
    for i in 1..=150 {
        path.push_str(&format!("/s{i}"));
    }
    assert!(store.put(&path, b"deep".to_vec(), "text/plain".to_string()));
    let mut prefix = String::from("/");
    for i in 1..=149 {
        prefix.push_str(&format!("s{i}/"));
        let e = store.get(&prefix).unwrap_or_else(|| panic!("missing ancestor {prefix}"));
        assert!(e.is_container);
    }
    prefix.push_str("s150/");
    assert!(!store.contains(&prefix));
    assert_eq!(body_of(&store, &path), Some(b"deep".to_vec()));
}

#[test]
fn non_ascii_paths_are_handled_by_characters() {
    let mut store = LdpStore::new();
    assert!(store.put("/ü/ñ.txt", b"u".to_vec(), "text/plain".to_string()));
    assert!(store.contains("/ü/"));
    assert!(store.contains("ü/ñ.txt"));
}
