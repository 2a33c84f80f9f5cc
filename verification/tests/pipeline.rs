use gudf::pipeline::{DiffPipeline, PathMatcher};
use gudf::result::{Change, ChangeKind, DiffResult};

fn make_change(kind: ChangeKind, path: Option<&str>) -> Change {
    Change {
        kind,
        path: path.map(|s| s.to_string()),
        old_value: Some("old".to_string()),
        new_value: Some("new".to_string()),
        location: None,
        annotations: Vec::new(),
    }
}

#[test]
fn test_filter_kind() {
    let changes = vec![
        make_change(ChangeKind::Added, Some("a")),
        make_change(ChangeKind::Removed, Some("b")),
        make_change(ChangeKind::Modified, Some("c")),
    ];
    let pipeline = DiffPipeline::new(&changes);
    let result = pipeline.filter_kind(ChangeKind::Added).collect();
    assert_eq!(result.len(), 1);
    assert_eq!(result[0].path.as_deref(), Some("a"));
}

#[test]
fn test_filter_path() {
    let changes = vec![
        make_change(ChangeKind::Modified, Some("config.database.host")),
        make_change(ChangeKind::Modified, Some("config.database.port")),
        make_change(ChangeKind::Modified, Some("config.server.host")),
    ];
    let pipeline = DiffPipeline::new(&changes);
    let result = pipeline.filter_path("config.database.**").collect();
    assert_eq!(result.len(), 2);
}

#[test]
fn test_filter_path_star() {
    let changes = vec![
        make_change(ChangeKind::Modified, Some("config.database")),
        make_change(ChangeKind::Modified, Some("config.server")),
    ];
    let pipeline = DiffPipeline::new(&changes);
    let result = pipeline.filter_path("config.*").collect();
    assert_eq!(result.len(), 2);
}

#[test]
fn test_exclude_unchanged() {
    let changes = vec![
        make_change(ChangeKind::Unchanged, Some("a")),
        make_change(ChangeKind::Modified, Some("b")),
    ];
    let pipeline = DiffPipeline::new(&changes);
    let result = pipeline.exclude_unchanged().collect();
    assert_eq!(result.len(), 1);
}

#[test]
fn test_chained_filters() {
    let changes = vec![
        make_change(ChangeKind::Added, Some("config.database.host")),
        make_change(ChangeKind::Modified, Some("config.database.port")),
        make_change(ChangeKind::Added, Some("config.server.host")),
    ];
    let pipeline = DiffPipeline::new(&changes);
    let result = pipeline
        .filter_kind(ChangeKind::Added)
        .filter_path("config.database.**")
        .collect();
    assert_eq!(result.len(), 1);
    assert_eq!(result[0].path.as_deref(), Some("config.database.host"));
}

#[test]
fn test_count() {
    let changes = vec![
        make_change(ChangeKind::Added, Some("a")),
        make_change(ChangeKind::Removed, Some("b")),
    ];
    let pipeline = DiffPipeline::new(&changes);
    assert_eq!(pipeline.count(), 2);
}

#[test]
fn test_into_iterator() {
    let changes = vec![
        make_change(ChangeKind::Added, Some("a")),
        make_change(ChangeKind::Added, Some("b")),
    ];
    let pipeline = DiffPipeline::new(&changes);
    let collected: Vec<_> = pipeline.into_iter().collect();
    assert_eq!(collected.len(), 2);
}

#[test]
fn test_path_matcher_exact() {
    let matcher = PathMatcher::new("config.database.host");
    assert!(matcher.matches("config.database.host"));
    assert!(!matcher.matches("config.database.port"));
}

#[test]
fn test_path_matcher_double_star() {
    let matcher = PathMatcher::new("config.**");
    assert!(matcher.matches("config.database"));
    assert!(matcher.matches("config.database.host"));
    assert!(matcher.matches("config.database.host.deep"));
    assert!(!matcher.matches("other.database"));
}

#[test]
fn test_path_matcher_star() {
    let matcher = PathMatcher::new("config.*.host");
    assert!(matcher.matches("config.database.host"));
    assert!(matcher.matches("config.server.host"));
    assert!(!matcher.matches("config.database.port"));
}

#[test]
fn test_diff_result_pipeline() {
    let result = DiffResult {
        changes: vec![
            make_change(ChangeKind::Added, Some("a")),
            make_change(ChangeKind::Unchanged, Some("b")),
        ],
        format: gudf::format::FormatKind::Json,
        stats: gudf::result::DiffStats {
            additions: 1,
            deletions: 0,
            modifications: 0,
            moves: 0,
            renames: 0,
        },
    };
    let filtered = result.pipeline().exclude_unchanged().collect();
    assert_eq!(filtered.len(), 1);
}

