use note_taker_lib::file_cache::FileCache;
use note_taker_lib::greet;
use note_taker_lib::webdav::{file_hrefs, notes_path_from_root, ListedEntry};

#[test]
fn greets_by_name() {
    assert_eq!(greet("Ada"), "Hello, Ada! You've been greeted from Rust!");
}

#[test]
fn notes_path_is_under_the_users_files() {
    assert_eq!(notes_path_from_root("bob", "/notes"), "/remote.php/dav/files/bob/notes");
}

#[test]
fn only_file_addresses_are_listed() {
    let entries = vec![
        ListedEntry::Folder,
        ListedEntry::File("/a.md".to_string()),
        ListedEntry::File("/b.md".to_string()),
    ];
    assert_eq!(file_hrefs(&entries), vec!["/a.md".to_string(), "/b.md".to_string()]);
}

#[test]
fn a_fetched_note_is_served_from_the_cache() {
    let mut cache = FileCache::new();
    assert!(cache.get_cached("n1").is_none());
    let f = cache.on_fetched("n1", Ok("text".to_string())).unwrap();
    assert_eq!(f.id, "n1");
    assert_eq!(f.contents, "text");
    let again = cache.get_cached("n1").unwrap();
    assert_eq!(again.contents, "text");
}

#[test]
fn a_failed_fetch_is_explained() {
    let mut cache = FileCache::new();
    let r = cache.on_fetched("n1", Err("offline".to_string()));
    match r {
        Err(m) => assert_eq!(m, "Could not get file in InMemoryFileCache: offline"),
        Ok(_) => panic!("expected an error"),
    }
    assert!(cache.get_cached("n1").is_none());
}

#[test]
fn the_notes_tree_files_each_address() {
    let hrefs = vec![
        "/remote.php/dav/files/u/notes/a.md".to_string(),
        "/remote.php/dav/files/u/notes/b.md".to_string(),
    ];
    let mut tree = note_taker_lib::file_cache::notes_tree(&hrefs);
    let a = tree.get_at_node("remote.php/dav/files/u/notes/a.md".to_string()).unwrap();
    assert_eq!(a.id, "/remote.php/dav/files/u/notes/a.md");
    assert_eq!(a.contents, "");
    assert!(tree.leaves_are_filed());
    let notes = tree.get_node("remote.php".to_string()).unwrap();
    assert_eq!(notes.children.len(), 1);
    assert!(tree.delete_node("a.md".to_string()).is_none());
}
