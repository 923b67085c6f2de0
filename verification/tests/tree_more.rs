use note_taker_lib::tree::{display_at, DisplayTreeTypes, JsonValue, PointerTarget, Tree, TreeNode, Treeable};

#[derive(Debug, PartialEq, Clone)]
struct Note {
    id: String,
    body: String,
}
impl Note {
    fn new(id: &str, body: &str) -> Self {
        Note { id: id.to_string(), body: body.to_string() }
    }
}
impl Treeable for Note {
    fn get_tree_id(&self) -> String {
        self.id.clone()
    }
}

#[test]
fn display_tree_groups_files_by_folder() {
    let mut tr = Tree::<Note>::default();
    tr.add_node(Note::new("val1", "a"));
    tr.add_node(Note::new("hello/val1", "b"));
    tr.add_node(Note::new("hello/val2/valb", "c"));
    assert!(tr.leaves_are_filed());
    let disp = tr.build_disp_tree();
    assert_eq!(disp.len(), 2);
    assert_eq!(disp[0].0, "val1");
    match &disp[0].1 {
        DisplayTreeTypes::File(n) => assert_eq!(n.body, "a"),
        _ => panic!("expected a file"),
    }
    assert_eq!(disp[1].0, "hello");
    match &disp[1].1 {
        DisplayTreeTypes::Folder(entries) => {
            assert_eq!(entries.len(), 2);
            assert_eq!(entries[0].0, "val1");
            assert_eq!(entries[1].0, "val2");
            match &entries[1].1 {
                DisplayTreeTypes::Folder(inner) => {
                    assert_eq!(inner.len(), 1);
                    assert_eq!(inner[0].0, "valb");
                }
                _ => panic!("expected a folder"),
            }
        }
        _ => panic!("expected a folder"),
    }
}

#[test]
fn leading_separator_is_stripped_from_the_key() {
    let mut tr = Tree::<Note>::default();
    tr.add_node(Note::new("/notes/a", "x"));
    assert_eq!(tr.get_at_node("notes/a".to_string()).unwrap().body, "x");
    assert!(tr.get_at_node("/notes/a".to_string()).is_none());
    assert_eq!(tr.get_node("notes".to_string()).unwrap().children.len(), 1);
}

#[test]
fn lookup_of_a_nested_id_reads_components_without_separators() {
    let mut tr = Tree::<Note>::default();
    tr.add_node(Note::new("hello/val1", "x"));
    assert!(tr.get_node("hello".to_string()).is_some());
    assert!(tr.get_node("hello/val1".to_string()).is_none());
    assert!(tr.get_node("".to_string()).is_some());
    assert!(tr.get_node("nothing".to_string()).is_none());
}

#[test]
fn parent_of_a_deep_id_drops_two_components() {
    let mut tr = Tree::<Note>::default();
    tr.add_node(Note::new("a/b/c", "x"));
    tr.add_node(Note::new("a/d", "y"));
    let parent = tr.get_parent_node("a/b/c".to_string()).unwrap();
    assert_eq!(parent.id, "a");
    assert_eq!(parent.children.len(), 2);
}

#[test]
fn delete_removes_the_child_named_after_a_separator() {
    let mut tr = Tree::<Note>::default();
    tr.set_separator('|');
    tr.add_node(Note::new("/b", "gone"));
    tr.add_node(Note::new("c", "kept"));
    assert_eq!(tr.root_node().children.len(), 2);
    let removed = tr.delete_node("b".to_string());
    assert_eq!(removed.unwrap().body, "gone");
    assert!(tr.get_at_node("/b".to_string()).is_none());
    assert_eq!(tr.root_node().children.len(), 1);
    assert_eq!(tr.root_node().children[0].id, "c");
    assert!(tr.leaves_are_filed());
}

#[test]
fn delete_can_leave_a_leaf_with_the_same_id_unfiled() {
    let mut tr = Tree::<Note>::default();
    tr.add_node(Note::new("//z", "z"));
    tr.set_separator('|');
    tr.add_node(Note::new("/b", "first"));
    tr.set_separator('/');
    tr.add_node(Note::new("//b", "second"));
    assert!(tr.leaves_are_filed());
    tr.set_separator('|');
    assert_eq!(tr.delete_node("b".to_string()).unwrap().body, "second");
    assert!(!tr.leaves_are_filed());
    assert_eq!(tr.root_node().children.len(), 1);
    assert_eq!(tr.root_node().children[0].children[1].id, "/b");
}

#[test]
fn delete_of_a_plain_path_finds_nothing() {
    let mut tr = Tree::<Note>::default();
    tr.add_node(Note::new("hello/val1", "x"));
    assert!(tr.delete_node("hello/val1".to_string()).is_none());
    assert_eq!(tr.get_at_node("hello/val1".to_string()).unwrap().body, "x");
}

#[test]
fn re_adding_a_path_replaces_the_value_only() {
    let mut tr = Tree::<Note>::default();
    tr.add_node(Note::new("a/b", "one"));
    tr.add_node(Note::new("a/b", "two"));
    assert_eq!(tr.get_at_node("a/b".to_string()).unwrap().body, "two");
    assert_eq!(tr.get_node("a".to_string()).unwrap().children.len(), 1);
}

#[test]
fn nodes_record_their_parent_id() {
    let mut tr = Tree::<Note>::default();
    tr.add_node(Note::new("a/b", "one"));
    let a = tr.get_node("a".to_string()).unwrap();
    assert_eq!(a.prefix, "");
    assert_eq!(a.children[0].id, "a/b");
    assert_eq!(a.children[0].prefix, "a");
}

#[test]
fn json_value_of_nodes() {
    let mut parent = TreeNode::new("a".to_string(), "".to_string());
    parent.children.push(TreeNode::new("a/b".to_string(), "a".to_string()));
    parent.children.push(TreeNode::new("a/c".to_string(), "a".to_string()));
    match parent.to_json_value() {
        JsonValue::Array(items) => {
            assert_eq!(items.len(), 3);
            let strings: Vec<&str> = items
                .iter()
                .map(|v| match v {
                    JsonValue::String(s) => s.as_str(),
                    _ => panic!("expected a string"),
                })
                .collect();
            assert_eq!(strings, vec!["", "a", "a"]);
        }
        _ => panic!("expected an array"),
    }
}

#[test]
fn nested_json_of_the_tree() {
    let mut tr = Tree::<Note>::default();
    tr.add_node(Note::new("a/b", "one"));
    match tr.print() {
        JsonValue::Object(entries) => {
            assert_eq!(entries.len(), 1);
            assert_eq!(entries[0].0, "");
            match &entries[0].1 {
                JsonValue::Object(children) => {
                    assert_eq!(children.len(), 1);
                    assert_eq!(children[0].0, "a");
                    match &children[0].1 {
                        JsonValue::Object(inner) => {
                            assert_eq!(inner.len(), 1);
                            assert_eq!(inner[0].0, "a");
                        }
                        _ => panic!("expected an object"),
                    }
                }
                _ => panic!("expected an object"),
            }
        }
        _ => panic!("expected an object"),
    }
}

#[test]
fn delete_can_change_the_tree_and_return_nothing() {
    let mut tr = Tree::<Note>::default();
    tr.set_separator('|');
    tr.add_node(Note::new("/b|c", "kept"));
    assert_eq!(tr.root_node().children.len(), 1);
    assert!(tr.delete_node("b".to_string()).is_none());
    assert_eq!(tr.root_node().children.len(), 0);
    assert_eq!(tr.get_at_node("/b|c".to_string()).unwrap().body, "kept");
}

#[test]
fn adding_twice_is_adding_once() {
    let mut once = Tree::<Note>::default();
    once.add_node(Note::new("/a/b", "x"));
    let mut twice = Tree::<Note>::default();
    twice.add_node(Note::new("/a/b", "x"));
    twice.add_node(Note::new("/a/b", "x"));
    assert!(once.root_node() == twice.root_node());
    assert_eq!(twice.get_at_node("a/b".to_string()).unwrap().body, "x");
    assert!(twice.get_at_node("/a/b".to_string()).is_none());
}

#[test]
fn the_empty_lookup_gives_the_root() {
    let mut tr = Tree::<Note>::default();
    tr.add_node(Note::new("a/b", "x"));
    let root = tr.get_node("".to_string()).unwrap();
    assert_eq!(root.id, "");
    assert_eq!(root.children.len(), 1);
}

#[test]
fn re_adding_a_stored_path_with_a_leading_separator_creates_no_node() {
    let mut tr = Tree::<Note>::default();
    tr.add_node(Note::new("a/b", "one"));
    tr.add_node(Note::new("c", "two"));
    let before = tr.print();
    tr.add_node(Note::new("/a/b", "three"));
    assert_eq!(format!("{:?}", tr.print()), format!("{:?}", before));
    assert_eq!(tr.get_at_node("a/b".to_string()).unwrap().body, "three");
}

#[test]
fn pointers_pick_out_folders_and_files() {
    let mut tr = Tree::<Note>::default();
    tr.add_node(Note::new("notes/a.md", "a"));
    tr.add_node(Note::new("notes/sub/b.md", "b"));
    tr.add_node(Note::new("x~y", "tilde"));
    let entries = tr.build_disp_tree();
    assert!(matches!(display_at(&entries, ""), PointerTarget::Whole));
    assert!(matches!(display_at(&entries, "notes"), PointerTarget::Missing));
    assert!(matches!(display_at(&entries, "/nothing"), PointerTarget::Missing));
    match display_at(&entries, "/notes") {
        PointerTarget::Entry(DisplayTreeTypes::Folder(inner)) => assert_eq!(inner.len(), 2),
        _ => panic!("expected the notes folder"),
    }
    match display_at(&entries, "/notes/sub/b.md") {
        PointerTarget::Entry(DisplayTreeTypes::File(n)) => assert_eq!(n.body, "b"),
        _ => panic!("expected a file"),
    }
    match display_at(&entries, "/notes/a.md/body") {
        PointerTarget::Into(n, rest) => {
            assert_eq!(n.body, "a");
            assert_eq!(rest, "/body");
        }
        _ => panic!("expected a way into a file"),
    }
    match display_at(&entries, "/x~0y") {
        PointerTarget::Entry(DisplayTreeTypes::File(n)) => assert_eq!(n.body, "tilde"),
        _ => panic!("expected the escaped key"),
    }
}
