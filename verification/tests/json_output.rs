use gudf::format::Format;
use gudf::formats::json::JsonFormat;
use gudf::formats::text::TextFormat;
use gudf::output::json::JsonFormatter;
use gudf::output::json_patch::JsonPatchFormatter;
use gudf::output::OutputFormatter;

#[test]
fn test_json_output_dot_notation() {
    let format = JsonFormat;
    let result = format
        .diff(r#"{"a": 1}"#, r#"{"a": 2, "b": 3}"#)
        .unwrap();
    let formatter = JsonFormatter;
    let output = formatter.format(&result);
    let ops: Vec<serde_json::Value> = serde_json::from_str(&output).unwrap();

    let replace_op = ops.iter().find(|op| op["op"] == "replace").unwrap();
    assert_eq!(replace_op["path"], "a");
    assert_eq!(replace_op["value"]["before"], 1);
    assert_eq!(replace_op["value"]["after"], 2);

    let add_op = ops.iter().find(|op| op["op"] == "add").unwrap();
    assert_eq!(add_op["path"], "b");
    assert_eq!(add_op["value"], 3);
}

#[test]
fn test_json_output_nested() {
    let format = JsonFormat;
    let result = format
        .diff(
            r#"{"items": [{"name": "a"}, {"name": "b"}]}"#,
            r#"{"items": [{"name": "a"}, {"name": "c"}]}"#,
        )
        .unwrap();
    let formatter = JsonFormatter;
    let output = formatter.format(&result);
    let ops: Vec<serde_json::Value> = serde_json::from_str(&output).unwrap();

    let replace_op = ops.iter().find(|op| op["op"] == "replace").unwrap();
    assert_eq!(replace_op["path"], "items[1].name");
    assert_eq!(replace_op["value"]["before"], "b");
    assert_eq!(replace_op["value"]["after"], "c");
}

#[test]
fn test_json_output_text_coalesced() {
    let format = TextFormat;
    let result = format.diff("hello\nworld\n", "hello\nrust\n").unwrap();
    let formatter = JsonFormatter;
    let output = formatter.format(&result);
    let ops: Vec<serde_json::Value> = serde_json::from_str(&output).unwrap();

    assert_eq!(ops.len(), 1);
    assert_eq!(ops[0]["op"], "replace");
    assert_eq!(ops[0]["value"]["before"], "world");
    assert_eq!(ops[0]["value"]["after"], "rust");
}

#[test]
fn test_json_output_remove() {
    let format = JsonFormat;
    let result = format
        .diff(r#"{"a": 1, "b": 2}"#, r#"{"a": 1}"#)
        .unwrap();
    let formatter = JsonFormatter;
    let output = formatter.format(&result);
    let ops: Vec<serde_json::Value> = serde_json::from_str(&output).unwrap();

    let remove_op = ops.iter().find(|op| op["op"] == "remove").unwrap();
    assert_eq!(remove_op["path"], "b");
    assert_eq!(remove_op["value"], 2);
}

#[test]
fn test_json_output_add() {
    let format = JsonFormat;
    let result = format
        .diff(r#"{"a": 1}"#, r#"{"a": 1, "b": 2}"#)
        .unwrap();
    let formatter = JsonFormatter;
    let output = formatter.format(&result);
    let ops: Vec<serde_json::Value> = serde_json::from_str(&output).unwrap();

    let add_op = ops.iter().find(|op| op["op"] == "add").unwrap();
    assert_eq!(add_op["path"], "b");
    assert_eq!(add_op["value"], 2);
}


#[test]
fn test_json_patch_output() {
    let format = JsonFormat;
    let result = format
        .diff(r#"{"a": 1}"#, r#"{"a": 2, "b": 3}"#)
        .unwrap();
    let formatter = JsonPatchFormatter;
    let output = formatter.format(&result);
    let ops: Vec<serde_json::Value> = serde_json::from_str(&output).unwrap();
    assert!(ops.iter().any(|op| op["op"] == "replace"));
    assert!(ops.iter().any(|op| op["op"] == "add"));
}

