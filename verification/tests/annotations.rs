use gudf::annotations::{
    annotate_changes, AnnotationValue, Annotator, AstNodeAnnotator, PathDepthAnnotator, SensitiveFieldAnnotator,
};
use gudf::result::{Change, ChangeKind};

fn make_change(kind: ChangeKind, path: Option<&str>, old: Option<&str>, new: Option<&str>) -> Change {
    Change {
        kind,
        path: path.map(|s| s.to_string()),
        old_value: old.map(|s| s.to_string()),
        new_value: new.map(|s| s.to_string()),
        location: None,
        annotations: Vec::new(),
    }
}

#[test]
fn test_sensitive_field_annotator() {
    let annotator = SensitiveFieldAnnotator::default();
    let change = make_change(ChangeKind::Modified, Some("database.password"), Some("old"), Some("new"));
    let annotations = annotator.annotate(&change);
    assert!(!annotations.is_empty());
    assert!(annotations.iter().any(|a| a.key == "sensitive"));
}

#[test]
fn test_sensitive_field_no_match() {
    let annotator = SensitiveFieldAnnotator::default();
    let change = make_change(ChangeKind::Modified, Some("database.host"), Some("old"), Some("new"));
    let annotations = annotator.annotate(&change);
    assert!(annotations.is_empty());
}

#[test]
fn test_path_depth_annotator() {
    let annotator = PathDepthAnnotator;
    let change = make_change(ChangeKind::Modified, Some("a.b.c"), Some("1"), Some("2"));
    let annotations = annotator.annotate(&change);
    let depth = annotations.iter().find(|a| a.key == "depth").unwrap();
    assert_eq!(depth.value, AnnotationValue::Tag("3".to_string()));
}

#[test]
fn test_ast_node_annotator() {
    let annotator = AstNodeAnnotator;
    let change = make_change(ChangeKind::Modified, Some("function_definition"), Some("old"), Some("new"));
    let annotations = annotator.annotate(&change);
    assert!(!annotations.is_empty());
    assert!(annotations.iter().any(|a| a.key == "ast_node"));
}

#[test]
fn test_annotate_changes() {
    let mut changes = vec![
        make_change(ChangeKind::Modified, Some("config.api_key"), Some("old"), Some("new")),
        make_change(ChangeKind::Modified, Some("config.host"), Some("old"), Some("new")),
    ];
    let annotators: Vec<Box<dyn Annotator>> = vec![
        Box::new(SensitiveFieldAnnotator::default()),
        Box::new(PathDepthAnnotator),
    ];
    annotate_changes(&mut changes, &annotators);
    assert!(!changes[0].annotations.is_empty());
    assert!(changes[0].annotations.iter().any(|a| a.key == "sensitive"));
    assert!(!changes[1].annotations.is_empty());
    assert!(changes[1].annotations.iter().all(|a| a.key != "sensitive"));
}

#[test]
fn test_sensitive_new_patterns() {
    let annotator = SensitiveFieldAnnotator::default();
    for field in &["session_id", "cookie_value", "jwt_token", "bearer_auth", "client_secret"] {
        let change = make_change(ChangeKind::Modified, Some(field), Some("old"), Some("new"));
        let annotations = annotator.annotate(&change);
        assert!(
            annotations.iter().any(|a| a.key == "sensitive"),
            "Expected {field} to be flagged as sensitive"
        );
    }
}

#[test]
fn test_sensitive_custom_patterns() {
    let annotator = SensitiveFieldAnnotator::new(vec!["custom_field".to_string()]);
    let change = make_change(ChangeKind::Modified, Some("my_custom_field"), Some("old"), Some("new"));
    let annotations = annotator.annotate(&change);
    assert!(annotations.iter().any(|a| a.key == "sensitive"));

    // Default patterns should NOT match with custom-only
    let change2 = make_change(ChangeKind::Modified, Some("password"), Some("old"), Some("new"));
    let annotations2 = annotator.annotate(&change2);
    assert!(annotations2.is_empty());
}

#[test]
fn test_ast_node_no_substring_match() {
    let annotator = AstNodeAnnotator;
    // "my_function_definition_v2" should NOT match "function_definition"
    let change = make_change(ChangeKind::Modified, Some("my_function_definition_v2"), Some("old"), Some("new"));
    let annotations = annotator.annotate(&change);
    assert!(annotations.is_empty(), "Should not match by substring");
}
