use gudf::builder::{Gudf, OutputKind};
use gudf::format::FormatKind;

#[test]
fn test_builder_json_auto_detect() {
    let output = Gudf::diff(r#"{"a": 1}"#, r#"{"a": 2, "b": 3}"#)
        .output(OutputKind::Json)
        .run()
        .unwrap();

    let ops: Vec<serde_json::Value> = serde_json::from_str(&output).unwrap();
    assert_eq!(ops.len(), 2);
    assert!(ops.iter().any(|op| op["op"] == "replace" && op["path"] == "a"));
    assert!(ops.iter().any(|op| op["op"] == "add" && op["path"] == "b"));
}

#[test]
fn test_builder_forced_format() {
    let output = Gudf::diff(r#"{"a": 1}"#, r#"{"a": 2}"#)
        .format(FormatKind::Text)
        .output(OutputKind::Inline)
        .run()
        .unwrap();

    // Forced as text, so inline output should contain line-level markers
    assert!(output.contains("[-]") || output.contains("[+]"));
}

#[test]
fn test_builder_semantic() {
    let output = Gudf::diff(
        r#"{"userName": "Alice"}"#,
        r#"{"user_name": "Alice"}"#,
    )
    .semantic(true)
    .output(OutputKind::Json)
    .run()
    .unwrap();

    let ops: Vec<serde_json::Value> = serde_json::from_str(&output).unwrap();
    // Top-level keys are not siblings (no common parent), so detected as "move"
    assert!(ops.iter().any(|op| op["op"] == "move" || op["op"] == "rename"));
}

#[test]
fn test_builder_execute_raw() {
    let result = Gudf::diff(r#"{"a": 1}"#, r#"{"a": 2}"#)
        .execute()
        .unwrap();

    assert_eq!(result.stats.modifications, 1);
    assert_eq!(result.format, FormatKind::Json);
}

#[test]
fn test_builder_context_lines() {
    let output = Gudf::diff("a\nb\nc\nd\ne\n", "a\nb\nX\nd\ne\n")
        .context(1)
        .labels("before", "after")
        .run()
        .unwrap();

    assert!(output.contains("before"));
    assert!(output.contains("after"));
}

#[test]
fn test_builder_nested_json() {
    let output = Gudf::diff(
        r#"{"items": [{"name": "a"}, {"name": "b"}]}"#,
        r#"{"name": "test", "items": [{"name": "a"}, {"name": "d"}, {"name": "c"}]}"#,
    )
    .output(OutputKind::Json)
    .run()
    .unwrap();

    let ops: Vec<serde_json::Value> = serde_json::from_str(&output).unwrap();
    assert!(ops.iter().any(|op| op["path"] == "items[1].name"));
}

