use note_taker_lib::commands::{
    build_file_tree, find_highest_number_file, is_listing_named, new_untitled_file_path, parse_number, path_in_docs,
    try_find_highest_number_file, try_new_untitled_file_path, DirListing,
};

#[test]
fn commands_test1() {
    let collected_dir: Vec<String> = vec![
        "Untitled.md".to_string(),
        "Untitled1.md".to_string(),
        "Untitled1234.md".to_string(),
    ];
    let val: i32 = find_highest_number_file(&collected_dir);
    assert_eq!(val, 1234)
}

#[test]
fn highest_number_is_one_without_numbered_files() {
    assert_eq!(find_highest_number_file(&vec!["Untitled.md".to_string()]), 1);
    assert_eq!(find_highest_number_file(&vec![]), 1);
    assert_eq!(find_highest_number_file(&vec!["Untitled0.md".to_string()]), 1);
}

#[test]
fn numbers_are_found_inside_longer_names() {
    let names = vec!["my Untitled7.md.bak".to_string(), "Untitled3.md".to_string()];
    assert_eq!(find_highest_number_file(&names), 7);
}

#[test]
fn numbers_that_are_not_i32_are_refused() {
    assert_eq!(try_find_highest_number_file(&vec!["Untitled99999999999.md".to_string()]), None);
    assert_eq!(try_find_highest_number_file(&vec!["Untitled\u{663}.md".to_string()]), None);
    assert_eq!(try_find_highest_number_file(&vec!["Untitled42.md".to_string()]), Some(42));
}

#[test]
fn parse_number_reads_ascii_digits() {
    assert_eq!(parse_number(&"0042".chars().collect()), Some(42));
    assert_eq!(parse_number(&"2147483647".chars().collect()), Some(i32::MAX));
    assert_eq!(parse_number(&"2147483648".chars().collect()), None);
    assert_eq!(parse_number(&"".chars().collect()), None);
    assert_eq!(parse_number(&"1a".chars().collect()), None);
}

#[test]
fn new_file_is_untitled_when_none_exists() {
    let names = vec!["notes.md".to_string()];
    assert_eq!(new_untitled_file_path("/d", &names), "/d/Untitled.md");
}

#[test]
fn new_file_after_a_plain_untitled_is_number_two() {
    let names = vec!["Untitled.md".to_string()];
    assert_eq!(new_untitled_file_path("/d", &names), "/d/Untitled2.md");
}

#[test]
fn new_file_takes_the_next_number() {
    let names = vec![
        "Untitled3.md".to_string(),
        "Untitled10.md".to_string(),
        "notes.md".to_string(),
    ];
    assert_eq!(new_untitled_file_path("/docs", &names), "/docs/Untitled11.md");
    assert_eq!(try_new_untitled_file_path("/docs", &names), Some("/docs/Untitled11.md".to_string()));
}

#[test]
fn no_new_file_past_the_largest_number() {
    let names = vec!["Untitled2147483647.md".to_string()];
    assert_eq!(try_new_untitled_file_path("/d", &names), None);
}

#[test]
fn paths_in_docs_go_by_components() {
    assert!(path_in_docs("/home/u/docs", "/home/u/docs/x.md"));
    assert!(path_in_docs("/home/u/docs", "/home/u/docs"));
    assert!(path_in_docs("/home/u/docs/", "/home/u/docs//x.md"));
    assert!(!path_in_docs("/home/u/docs", "/home/u/docsx/x.md"));
    assert!(!path_in_docs("/home/u/docs", "home/u/docs/x.md"));
    assert!(!path_in_docs("/home/u/docs", "/home/u"));
}

#[test]
fn file_tree_sorts_entries_by_path() {
    let listing = DirListing::Dir(
        "/docs".to_string(),
        vec![
            DirListing::File("/docs/b.md".to_string()),
            DirListing::Dir("/docs/a".to_string(), vec![DirListing::File("/docs/a/z.md".to_string())]),
            DirListing::File("/docs/C.md".to_string()),
        ],
    );
    let tree = build_file_tree(&listing);
    assert!(tree.is_dir);
    assert_eq!(tree.name, "docs");
    assert_eq!(tree.path_from_docs, "/docs");
    let names: Vec<&str> = tree.files.iter().map(|f| f.name.as_str()).collect();
    assert_eq!(names, vec!["C.md", "a", "b.md"]);
    assert!(!tree.files[0].is_dir);
    assert!(tree.files[1].is_dir);
    assert_eq!(tree.files[1].files.len(), 1);
    assert_eq!(tree.files[1].files[0].path_from_docs, "/docs/a/z.md");
    assert_eq!(tree.files[1].files[0].name, "z.md");
}

#[test]
fn the_new_name_is_not_taken() {
    let names = vec![
        "Untitled.md".to_string(),
        "Untitled1.md".to_string(),
        "Untitled2.md".to_string(),
        "Untitled01.md".to_string(),
    ];
    let path = new_untitled_file_path("/docs", &names);
    assert_eq!(path, "/docs/Untitled3.md");
    assert!(!names.contains(&"Untitled3.md".to_string()));
}

#[test]
fn listings_without_file_names_are_found() {
    let good = DirListing::Dir("/docs".to_string(), vec![DirListing::File("/docs/a.md".to_string())]);
    assert!(is_listing_named(&good));
    let bad = DirListing::Dir("/docs".to_string(), vec![DirListing::File("/docs/..".to_string())]);
    assert!(!is_listing_named(&bad));
    assert!(!is_listing_named(&DirListing::File("/".to_string())));
}
