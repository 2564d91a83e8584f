use edit_anchor::tree::{is_hidden_entry, name_less, scan_directory_tree_from_path, shown_children, DirNode};

fn file(name: &str) -> DirNode {
    DirNode { name: name.to_string(), is_dir: false, children: vec![] }
}

fn dir(name: &str, children: Vec<DirNode>) -> DirNode {
    DirNode { name: name.to_string(), is_dir: true, children }
}

#[test]
fn test_scan_directory() {
    let root = dir(
        "proj",
        vec![
            dir("src", vec![file("main.rs")]),
            file(".DS_Store"),
            dir("target", vec![file("debug_file")]),
            file("Cargo.toml"),
        ],
    );
    let tree = scan_directory_tree_from_path(&root);
    assert!(tree.contains("Cargo.toml"));
    assert!(tree.contains("src"));
    assert!(tree.contains("main.rs"));
    assert!(!tree.contains("target"));
    assert!(!tree.contains(".DS_Store"));
    assert!(tree.starts_with("proj"));
    assert_eq!(tree, "proj\n├── Cargo.toml\n└── src\n    └── main.rs\n");
}

#[test]
fn nested_levels_use_four_spaces_per_level() {
    let root = dir(
        "r",
        vec![dir("b", vec![dir("c", vec![file("z"), file("y")])]), file("a")],
    );
    assert_eq!(
        scan_directory_tree_from_path(&root),
        "r\n├── a\n└── b\n    └── c\n        ├── y\n        └── z\n"
    );
}

#[test]
fn single_file_root_is_its_name() {
    assert_eq!(scan_directory_tree_from_path(&file("notes.txt")), "notes.txt\n");
}

#[test]
fn ignored_names_depend_on_kind() {
    assert!(is_hidden_entry(&dir("node_modules", vec![])));
    assert!(!is_hidden_entry(&file("node_modules")));
    assert!(is_hidden_entry(&file(".DS_Store")));
    assert!(!is_hidden_entry(&dir(".DS_Store", vec![])));
    assert!(!is_hidden_entry(&dir("targets", vec![])));
}

#[test]
fn names_order_by_code_point_with_prefix_first() {
    assert!(name_less(&"B".to_string(), &"a".to_string()));
    assert!(name_less(&"a".to_string(), &"ab".to_string()));
    assert!(!name_less(&"ab".to_string(), &"ab".to_string()));
    let children = vec![file("m"), dir("env", vec![]), file("b"), file("a")];
    assert_eq!(shown_children(&children), vec![3, 2, 0]);
}
