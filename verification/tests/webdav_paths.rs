use note_taker_lib::webdav::normalize_note_path;

#[test]
fn it_handles_both_being_root() {
    let val = normalize_note_path(
        "/remote.php/dav/files/username/notes_folder/".to_string(),
        "/inner1/file1.md".to_string(),
    );
    assert_eq!(
        val,
        Ok("/remote.php/dav/files/username/notes_folder/inner1/file1.md".to_string())
    )
}

#[test]
fn it_handles_both_being_non_root() {
    let val = normalize_note_path(
        "remote.php/dav/files/username/notes_folder/".to_string(),
        "inner1/file1.md".to_string(),
    );
    assert_eq!(
        val,
        Ok("/remote.php/dav/files/username/notes_folder/inner1/file1.md".to_string())
    )
}

#[test]
fn it_handles_no_trailing_slash_on_prefix() {
    let val = normalize_note_path(
        "/remote.php/dav/files/username/notes_folder".to_string(),
        "/inner1/file1.md".to_string(),
    );
    assert_eq!(
        val,
        Ok("/remote.php/dav/files/username/notes_folder/inner1/file1.md".to_string())
    )
}

#[test]
fn it_handles_both_being_non_root_no_trailing() {
    let val = normalize_note_path(
        "remote.php/dav/files/username/notes_folder".to_string(),
        "inner1/file1.md".to_string(),
    );
    assert_eq!(
        val,
        Ok("/remote.php/dav/files/username/notes_folder/inner1/file1.md".to_string())
    )
}

#[test]
fn the_extension_is_replaced_by_md() {
    assert_eq!(normalize_note_path("notes".to_string(), "a.txt".to_string()), Ok("/notes/a.md".to_string()));
    assert_eq!(normalize_note_path("/n".to_string(), "a.tar.gz".to_string()), Ok("/n/a.tar.md".to_string()));
}

#[test]
fn a_hidden_file_keeps_its_name() {
    assert_eq!(normalize_note_path("/n".to_string(), ".hidden".to_string()), Ok("/n/.hidden.md".to_string()));
}

#[test]
fn empty_paths_give_the_root() {
    assert_eq!(normalize_note_path("".to_string(), "".to_string()), Ok("/".to_string()));
}

#[test]
fn trailing_separators_are_dropped() {
    assert_eq!(normalize_note_path("/notes/".to_string(), "/sub/".to_string()), Ok("/notes/sub.md".to_string()));
    assert_eq!(normalize_note_path("/n".to_string(), "dir/".to_string()), Ok("/n/dir.md".to_string()));
}

#[test]
fn a_parent_component_gets_no_extension() {
    assert_eq!(normalize_note_path("/notes".to_string(), "..".to_string()), Ok("/notes/..".to_string()));
}

#[test]
fn repeated_leading_separators_are_dropped() {
    assert_eq!(normalize_note_path("/".to_string(), "//x".to_string()), Ok("/x.md".to_string()));
}

#[test]
fn normalizing_again_changes_nothing() {
    let r = normalize_note_path("notes".to_string(), "/a/b.txt".to_string()).unwrap();
    assert_eq!(r, "/notes/a/b.md");
    assert_eq!(normalize_note_path(String::new(), r.clone()), Ok(r.clone()));
    assert_eq!(normalize_note_path("/".to_string(), r.clone()), Ok(r));
}

#[test]
fn separators_at_the_seams_do_not_matter() {
    let expected = normalize_note_path("p/q".to_string(), "n/m".to_string());
    assert_eq!(normalize_note_path("/p/q".to_string(), "n/m".to_string()), expected);
    assert_eq!(normalize_note_path("p/q/".to_string(), "n/m".to_string()), expected);
    assert_eq!(normalize_note_path("/p/q/".to_string(), "/n/m".to_string()), expected);
    assert_eq!(expected, Ok("/p/q/n/m.md".to_string()));
    assert_eq!(normalize_note_path("/p/q/".to_string(), "/n/m/".to_string()), expected);
    assert_eq!(normalize_note_path("p/q".to_string(), "n/m/".to_string()), expected);
}
