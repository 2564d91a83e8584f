use edit_anchor::editor::{
    insert_at_line, parse_command, replace_all, str_replace_in, text_contains, undo_supported,
    BackupStore, BuiltInToolDefinition, EditorCommand, FileBackup,
};

#[test]
fn commands_by_name() {
    assert_eq!(parse_command("view"), EditorCommand::View);
    assert_eq!(parse_command("str_replace"), EditorCommand::StrReplace);
    assert_eq!(parse_command("create"), EditorCommand::Create);
    assert_eq!(parse_command("insert"), EditorCommand::Insert);
    assert_eq!(parse_command("undo_edit"), EditorCommand::UndoEdit);
    assert_eq!(parse_command("View"), EditorCommand::Unknown);
    assert_eq!(parse_command(""), EditorCommand::Unknown);
}

#[test]
fn replacement_of_every_occurrence() {
    assert_eq!(replace_all("aaa", "aa", "b"), "ba");
    assert_eq!(replace_all("x.y.z", ".", "::"), "x::y::z");
    assert_eq!(str_replace_in("let a = 1;\nlet a = 1;", "a = 1", "b = 2"), Some("let b = 2;\nlet b = 2;".to_string()));
    assert_eq!(str_replace_in("abc", "zz", "y"), None);
    assert_eq!(str_replace_in("abc", "", "y"), None);
}

#[test]
fn containment() {
    assert!(text_contains("hello world", "o w"));
    assert!(text_contains("abc", ""));
    assert!(!text_contains("abc", "abcd"));
}

#[test]
fn insertion_by_line_number() {
    assert_eq!(insert_at_line("a\nb", 1, "x"), Some("x\na\nb".to_string()));
    assert_eq!(insert_at_line("a\nb", 2, "x"), Some("a\nx\nb".to_string()));
    assert_eq!(insert_at_line("a\nb\n", 3, "x"), Some("a\nb\nx".to_string()));
    assert_eq!(insert_at_line("a\nb", 0, "x"), None);
    assert_eq!(insert_at_line("a\nb", 4, "x"), None);
    assert_eq!(insert_at_line("", 1, "x"), Some("x".to_string()));
}

#[test]
fn undo_withheld_from_retired_families() {
    let retired = vec!["model-4".to_string(), "mini-4".to_string()];
    assert!(!undo_supported("model-4-20250514", &retired));
    assert!(!undo_supported("big-mini-4-x", &retired));
    assert!(undo_supported("model-3-7", &retired));
    assert!(undo_supported("anything", &vec![]));
}

#[test]
fn built_in_tool_keeps_its_fields() {
    let t = BuiltInToolDefinition::new("text_editor_20250429", "str_replace_based_edit_tool");
    assert_eq!(t.tool_type, "text_editor_20250429");
    assert_eq!(t.name, "str_replace_based_edit_tool");
}

fn backup(path: &str, content: &str, timestamp: i64) -> FileBackup {
    FileBackup { original_content: content.to_string(), timestamp, file_path: path.to_string() }
}

#[test]
fn backups_keep_the_latest_per_path() {
    let mut store = BackupStore::new();
    assert!(store.get("a.rs").is_none());
    store.record(backup("a.rs", "one", 10));
    store.record(backup("b.rs", "bee", 11));
    store.record(backup("a.rs", "two", 12));
    let a = store.get("a.rs").unwrap();
    assert_eq!(a.original_content, "two");
    assert_eq!(a.timestamp, 12);
    assert_eq!(store.get("b.rs").unwrap().original_content, "bee");
    store.remove("a.rs");
    assert!(store.get("a.rs").is_none());
    assert_eq!(store.get("b.rs").unwrap().original_content, "bee");
}
