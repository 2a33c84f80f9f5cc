use gudf::format::FormatKind;
use gudf::merge::{merge, merge_json, MergeStrategy};
use gudf::value::JsonValue;

fn num(n: i64) -> JsonValue {
    JsonValue::Number(n.to_string())
}

fn st(s: &str) -> JsonValue {
    JsonValue::String(s.to_string())
}

fn obj(entries: Vec<(&str, JsonValue)>) -> JsonValue {
    let mut es: Vec<(String, JsonValue)> = entries.into_iter().map(|(k, v)| (k.to_string(), v)).collect();
    es.sort_by(|a, b| a.0.cmp(&b.0));
    JsonValue::Object(es)
}

fn js(v: &JsonValue) -> serde_json::Value {
    match v {
        JsonValue::Null => serde_json::Value::Null,
        JsonValue::Bool(b) => serde_json::Value::Bool(*b),
        JsonValue::Number(n) => serde_json::from_str(n).unwrap(),
        JsonValue::String(s) => serde_json::Value::String(s.clone()),
        JsonValue::Array(a) => serde_json::Value::Array(a.iter().map(js).collect()),
        JsonValue::Object(o) => serde_json::Value::Object(o.iter().map(|(k, v)| (k.clone(), js(v))).collect()),
    }
}

#[test]
fn test_clean_merge_disjoint_paths() {
    let base = obj(vec![("port", num(3000)), ("host", st("localhost"))]);
    let left = obj(vec![("port", num(8080)), ("host", st("localhost"))]);
    let right = obj(vec![("port", num(3000)), ("host", st("example.com"))]);

    let result = merge_json(&base, &left, &right, MergeStrategy::Manual);

    assert!(result.is_clean());
    assert_eq!(js(&result.merged)["port"], 8080);
    assert_eq!(js(&result.merged)["host"], "example.com");
}

#[test]
fn test_conflict_detection() {
    let base = obj(vec![("port", num(3000))]);
    let left = obj(vec![("port", num(8080))]);
    let right = obj(vec![("port", num(9090))]);

    let result = merge_json(&base, &left, &right, MergeStrategy::Manual);

    assert!(!result.is_clean());
    assert_eq!(result.conflicts.len(), 1);
    assert_eq!(result.conflicts[0].path, "port");
}

#[test]
fn test_conflict_ours_strategy() {
    let base = obj(vec![("port", num(3000))]);
    let left = obj(vec![("port", num(8080))]);
    let right = obj(vec![("port", num(9090))]);

    let result = merge_json(&base, &left, &right, MergeStrategy::Ours);

    assert!(result.is_clean());
    assert_eq!(js(&result.merged)["port"], 8080);
}

#[test]
fn test_conflict_theirs_strategy() {
    let base = obj(vec![("port", num(3000))]);
    let left = obj(vec![("port", num(8080))]);
    let right = obj(vec![("port", num(9090))]);

    let result = merge_json(&base, &left, &right, MergeStrategy::Theirs);

    assert!(result.is_clean());
    assert_eq!(js(&result.merged)["port"], 9090);
}

#[test]
fn test_same_change_both_sides() {
    let base = obj(vec![("port", num(3000))]);
    let left = obj(vec![("port", num(8080))]);
    let right = obj(vec![("port", num(8080))]);

    let result = merge_json(&base, &left, &right, MergeStrategy::Manual);

    assert!(result.is_clean());
    assert_eq!(js(&result.merged)["port"], 8080);
}

#[test]
fn test_one_side_adds() {
    let base = obj(vec![("a", num(1))]);
    let left = obj(vec![("a", num(1)), ("b", num(2))]);
    let right = obj(vec![("a", num(1))]);

    let result = merge_json(&base, &left, &right, MergeStrategy::Manual);

    assert!(result.is_clean());
    assert_eq!(js(&result.merged)["b"], 2);
}

#[test]
fn test_one_side_removes() {
    let base = obj(vec![("a", num(1)), ("b", num(2))]);
    let left = obj(vec![("a", num(1))]);
    let right = obj(vec![("a", num(1)), ("b", num(2))]);

    let result = merge_json(&base, &left, &right, MergeStrategy::Manual);

    assert!(result.is_clean());
    assert!(js(&result.merged).get("b").is_none());
}

#[test]
fn test_merge_from_strings() {
    let base = r#"{"a": 1, "b": 2}"#;
    let left = r#"{"a": 10, "b": 2}"#;
    let right = r#"{"a": 1, "b": 20}"#;

    let result = merge(base, left, right, FormatKind::Json, MergeStrategy::Manual).unwrap();

    assert!(result.is_clean());
    assert_eq!(js(&result.merged)["a"], 10);
    assert_eq!(js(&result.merged)["b"], 20);
}

#[test]
fn test_nested_clean_merge() {
    let base = obj(vec![("config", obj(vec![("port", num(3000)), ("host", st("localhost"))]))]);
    let left = obj(vec![("config", obj(vec![("port", num(8080)), ("host", st("localhost"))]))]);
    let right = obj(vec![("config", obj(vec![("port", num(3000)), ("host", st("example.com"))]))]);

    let result = merge_json(&base, &left, &right, MergeStrategy::Manual);

    assert!(result.is_clean());
    assert_eq!(js(&result.merged)["config"]["port"], 8080);
    assert_eq!(js(&result.merged)["config"]["host"], "example.com");
}

