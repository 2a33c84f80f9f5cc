use gudf::format::FormatKind;
use gudf::result::{Change, ChangeKind, DiffResult, DiffStats};
use gudf::semantic::{SemanticAnalyzer, SemanticOptions};

fn make_result(changes: Vec<Change>) -> DiffResult {
    let stats = DiffStats::from_changes(&changes);
    DiffResult {
        changes,
        format: FormatKind::Json,
        stats,
    }
}

#[test]
fn test_rename_detection() {
    let changes = vec![
        Change {
            kind: ChangeKind::Removed,
            path: Some("user.userName".to_string()),
            old_value: Some("\"Alice\"".to_string()),
            new_value: None,
            location: None,
            annotations: Vec::new(),
        },
        Change {
            kind: ChangeKind::Added,
            path: Some("user.user_name".to_string()),
            old_value: None,
            new_value: Some("\"Alice\"".to_string()),
            location: None,
            annotations: Vec::new(),
        },
    ];

    let analyzer = SemanticAnalyzer::with_defaults();
    let result = analyzer.analyze(make_result(changes));

    assert_eq!(result.stats.renames, 1);
    let renamed = result
        .changes
        .iter()
        .find(|c| c.kind == ChangeKind::Renamed)
        .expect("should have a Renamed change");
    assert_eq!(renamed.path.as_deref(), Some("user.userName"));
    assert_eq!(renamed.new_value.as_deref(), Some("user.user_name"));
}

#[test]
fn test_move_detection() {
    let changes = vec![
        Change {
            kind: ChangeKind::Removed,
            path: Some("old_section.key".to_string()),
            old_value: Some("\"value\"".to_string()),
            new_value: None,
            location: None,
            annotations: Vec::new(),
        },
        Change {
            kind: ChangeKind::Added,
            path: Some("new_section.key".to_string()),
            old_value: None,
            new_value: Some("\"value\"".to_string()),
            location: None,
            annotations: Vec::new(),
        },
    ];

    let analyzer = SemanticAnalyzer::with_defaults();
    let result = analyzer.analyze(make_result(changes));

    assert_eq!(result.stats.moves, 1);
    let moved = result
        .changes
        .iter()
        .find(|c| c.kind == ChangeKind::Moved)
        .expect("should have a Moved change");
    assert_eq!(moved.path.as_deref(), Some("old_section.key"));
}

#[test]
fn test_no_false_positives() {
    let changes = vec![
        Change {
            kind: ChangeKind::Removed,
            path: Some("key1".to_string()),
            old_value: Some("\"value1\"".to_string()),
            new_value: None,
            location: None,
            annotations: Vec::new(),
        },
        Change {
            kind: ChangeKind::Added,
            path: Some("key2".to_string()),
            old_value: None,
            new_value: Some("\"value2\"".to_string()),
            location: None,
            annotations: Vec::new(),
        },
    ];

    let analyzer = SemanticAnalyzer::with_defaults();
    let result = analyzer.analyze(make_result(changes));

    assert_eq!(result.stats.moves, 0);
    assert_eq!(result.stats.renames, 0);
}

#[test]
fn test_disabled_detection() {
    let changes = vec![
        Change {
            kind: ChangeKind::Removed,
            path: Some("user.userName".to_string()),
            old_value: Some("\"Alice\"".to_string()),
            new_value: None,
            location: None,
            annotations: Vec::new(),
        },
        Change {
            kind: ChangeKind::Added,
            path: Some("user.user_name".to_string()),
            old_value: None,
            new_value: Some("\"Alice\"".to_string()),
            location: None,
            annotations: Vec::new(),
        },
    ];

    let options = SemanticOptions {
        move_detection: false,
        rename_detection: false,
    };
    let analyzer = SemanticAnalyzer::new(options);
    let result = analyzer.analyze(make_result(changes));

    assert_eq!(result.stats.renames, 0);
    assert_eq!(result.stats.moves, 0);
}

#[test]
fn test_move_off_rename_on() {
    // Siblings should be detected as Renamed, non-siblings should be ignored
    let changes = vec![
        // Sibling pair (same parent "user")
        Change {
            kind: ChangeKind::Removed,
            path: Some("user.firstName".to_string()),
            old_value: Some("\"Alice\"".to_string()),
            new_value: None,
            location: None,
            annotations: Vec::new(),
        },
        Change {
            kind: ChangeKind::Added,
            path: Some("user.first_name".to_string()),
            old_value: None,
            new_value: Some("\"Alice\"".to_string()),
            location: None,
            annotations: Vec::new(),
        },
        // Non-sibling pair (different parents)
        Change {
            kind: ChangeKind::Removed,
            path: Some("old_section.key".to_string()),
            old_value: Some("\"val\"".to_string()),
            new_value: None,
            location: None,
            annotations: Vec::new(),
        },
        Change {
            kind: ChangeKind::Added,
            path: Some("new_section.key".to_string()),
            old_value: None,
            new_value: Some("\"val\"".to_string()),
            location: None,
            annotations: Vec::new(),
        },
    ];

    let options = SemanticOptions {
        move_detection: false,
        rename_detection: true,
    };
    let analyzer = SemanticAnalyzer::new(options);
    let result = analyzer.analyze(make_result(changes));

    assert_eq!(result.stats.renames, 1);
    assert_eq!(result.stats.moves, 0);
    // The non-sibling pair should remain as Added+Removed
    assert_eq!(result.stats.additions, 1);
    assert_eq!(result.stats.deletions, 1);
}

#[test]
fn test_move_on_rename_off() {
    // Non-siblings should be detected as Moved, siblings should be ignored
    let changes = vec![
        // Sibling pair
        Change {
            kind: ChangeKind::Removed,
            path: Some("user.firstName".to_string()),
            old_value: Some("\"Alice\"".to_string()),
            new_value: None,
            location: None,
            annotations: Vec::new(),
        },
        Change {
            kind: ChangeKind::Added,
            path: Some("user.first_name".to_string()),
            old_value: None,
            new_value: Some("\"Alice\"".to_string()),
            location: None,
            annotations: Vec::new(),
        },
        // Non-sibling pair
        Change {
            kind: ChangeKind::Removed,
            path: Some("old_section.key".to_string()),
            old_value: Some("\"val\"".to_string()),
            new_value: None,
            location: None,
            annotations: Vec::new(),
        },
        Change {
            kind: ChangeKind::Added,
            path: Some("new_section.key".to_string()),
            old_value: None,
            new_value: Some("\"val\"".to_string()),
            location: None,
            annotations: Vec::new(),
        },
    ];

    let options = SemanticOptions {
        move_detection: true,
        rename_detection: false,
    };
    let analyzer = SemanticAnalyzer::new(options);
    let result = analyzer.analyze(make_result(changes));

    assert_eq!(result.stats.moves, 1);
    assert_eq!(result.stats.renames, 0);
    // The sibling pair should remain as Added+Removed
    assert_eq!(result.stats.additions, 1);
    assert_eq!(result.stats.deletions, 1);
}

