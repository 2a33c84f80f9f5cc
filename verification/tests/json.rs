use gudf::format::Format;
use gudf::formats::json::JsonFormat;
use gudf::result::ChangeKind;

#[test]
fn test_identical_json() {
    let format = JsonFormat;
    let result = format.diff(r#"{"a": 1}"#, r#"{"a": 1}"#).unwrap();
    assert_eq!(result.stats.additions, 0);
    assert_eq!(result.stats.deletions, 0);
    assert_eq!(result.stats.modifications, 0);
}

#[test]
fn json_test_added_key() {
    let format = JsonFormat;
    let result = format.diff(r#"{"a": 1}"#, r#"{"a": 1, "b": 2}"#).unwrap();
    assert_eq!(result.stats.additions, 1);
}

#[test]
fn test_removed_key() {
    let format = JsonFormat;
    let result = format.diff(r#"{"a": 1, "b": 2}"#, r#"{"a": 1}"#).unwrap();
    assert_eq!(result.stats.deletions, 1);
}

#[test]
fn json_test_modified_value() {
    let format = JsonFormat;
    let result = format.diff(r#"{"a": 1}"#, r#"{"a": 2}"#).unwrap();
    assert_eq!(result.stats.modifications, 1);
}

#[test]
fn test_nested_diff() {
    let format = JsonFormat;
    let result = format
        .diff(
            r#"{"user": {"name": "Alice", "age": 30}}"#,
            r#"{"user": {"name": "Bob", "age": 30}}"#,
        )
        .unwrap();
    assert_eq!(result.stats.modifications, 1);
    let modified = result
        .changes
        .iter()
        .find(|c| c.kind == ChangeKind::Modified)
        .unwrap();
    assert_eq!(modified.path.as_deref(), Some("user.name"));
}

#[test]
fn test_array_diff() {
    let format = JsonFormat;
    let result = format.diff(r#"[1, 2, 3]"#, r#"[1, 2, 4]"#).unwrap();
    assert_eq!(result.stats.modifications, 1);
}

