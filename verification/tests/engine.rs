use gudf::annotations::SensitiveFieldAnnotator;
use gudf::engine::DiffEngine;
use gudf::format::FormatKind;
use gudf::formats::cross::CrossFormatKind;
use gudf::result::ChangeKind;
use gudf::semantic::{SemanticAnalyzer, SemanticOptions};

#[test]
fn test_auto_detect_json() {
    let engine = DiffEngine::new();
    let result = engine.diff(r#"{"a": 1}"#, r#"{"a": 2}"#).unwrap();
    assert_eq!(result.format, FormatKind::Json);
}

#[test]
fn test_auto_detect_text() {
    let engine = DiffEngine::new();
    let result = engine.diff("hello world\n", "goodbye world\n").unwrap();
    assert_eq!(result.format, FormatKind::Text);
}

#[test]
fn test_force_format() {
    let engine = DiffEngine::new();
    let result = engine
        .diff_as(FormatKind::Text, r#"{"a": 1}"#, r#"{"a": 2}"#)
        .unwrap();
    assert_eq!(result.format, FormatKind::Text);
}

#[test]
fn test_cross_format_diff() {
    let engine = DiffEngine::new();
    let result = engine
        .diff_cross(
            r#"{"name": "test"}"#,
            CrossFormatKind::Json,
            "name: test\n",
            CrossFormatKind::Yaml,
        )
        .unwrap();
    assert_eq!(result.stats.modifications, 0);
}

#[test]
fn test_with_annotators() {
    let engine = DiffEngine::new()
        .with_annotators(vec![Box::new(SensitiveFieldAnnotator::default())]);
    let result = engine
        .diff(
            r#"{"password": "old"}"#,
            r#"{"password": "new"}"#,
        )
        .unwrap();
    let modified = result
        .changes
        .iter()
        .find(|c| c.kind == ChangeKind::Modified)
        .unwrap();
    assert!(!modified.annotations.is_empty());
}

#[test]
fn test_with_semantic() {
    let engine = DiffEngine::new()
        .with_semantic(SemanticAnalyzer::new(SemanticOptions::default()));
    let result = engine
        .diff(
            r#"{"userName": "Alice"}"#,
            r#"{"user_name": "Alice"}"#,
        )
        .unwrap();
    let result = engine.analyze_semantic(result);
    assert!(result.stats.renames > 0 || result.stats.moves > 0);
}

