use gudf::format::FormatKind;
use gudf::patch::{patch_json, patch_text};
use gudf::result::{Change, ChangeKind, Location};

#[test]
fn test_patch_text_add() {
    let original = "line1\nline2\n";
    let changes = vec![Change {
        kind: ChangeKind::Added,
        path: None,
        old_value: None,
        new_value: Some("new_line\n".to_string()),
        location: Some(Location {
            line: 2,
            column: None,
        }),
        annotations: Vec::new(),
    }];
    let result = patch_text(original, &changes).unwrap();
    assert!(result.contains("new_line"));
}

#[test]
fn test_patch_json_modify() {
    let original = r#"{"name": "Alice", "age": 30}"#;
    let changes = vec![Change {
        kind: ChangeKind::Modified,
        path: Some("name".to_string()),
        old_value: Some("\"Alice\"".to_string()),
        new_value: Some("\"Bob\"".to_string()),
        location: None,
        annotations: Vec::new(),
    }];
    let result = patch_json(original, &changes).unwrap();
    assert!(result.contains("Bob"));
    assert!(!result.contains("Alice"));
}

#[test]
fn test_patch_json_remove() {
    let original = r#"{"name": "Alice", "age": 30}"#;
    let changes = vec![Change {
        kind: ChangeKind::Removed,
        path: Some("age".to_string()),
        old_value: Some("30".to_string()),
        new_value: None,
        location: None,
        annotations: Vec::new(),
    }];
    let result = patch_json(original, &changes).unwrap();
    assert!(!result.contains("age"));
}

#[test]
fn test_roundtrip_json() {
    let old = r#"{"a": 1, "b": 2}"#;
    let new = r#"{"a": 1, "b": 3, "c": 4}"#;

    let engine = gudf::engine::DiffEngine::new();
    let diff_result = engine.diff_as(FormatKind::Json, old, new).unwrap();
    let patched = patch_json(old, &diff_result.changes).unwrap();
    let patched_val: serde_json::Value = serde_json::from_str(&patched).unwrap();
    let expected_val: serde_json::Value = serde_json::from_str(new).unwrap();
    assert_eq!(patched_val, expected_val);
}

