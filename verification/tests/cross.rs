use gudf::formats::cross::{diff_cross, CrossFormatKind};
use gudf::result::ChangeKind;

#[test]
fn test_toml_to_yaml_identical_content() {
    let toml_content = r#"
name = "test"
version = "1.0"
"#;
    let yaml_content = "name: test\nversion: '1.0'\n";

    let result = diff_cross(
        toml_content,
        CrossFormatKind::Toml,
        yaml_content,
        CrossFormatKind::Yaml,
    )
    .unwrap();

    assert_eq!(result.stats.additions, 0);
    assert_eq!(result.stats.deletions, 0);
    assert_eq!(result.stats.modifications, 0);
}

#[test]
fn test_json_to_yaml_with_changes() {
    let json_content = r#"{"name": "old", "port": 3000}"#;
    let yaml_content = "name: new\nport: 3000\n";

    let result = diff_cross(
        json_content,
        CrossFormatKind::Json,
        yaml_content,
        CrossFormatKind::Yaml,
    )
    .unwrap();

    assert_eq!(result.stats.modifications, 1);
    let modified = result
        .changes
        .iter()
        .find(|c| c.kind == ChangeKind::Modified)
        .unwrap();
    assert_eq!(modified.path.as_deref(), Some("name"));
}

#[test]
fn test_toml_to_json_with_additions() {
    let toml_content = "name = \"test\"\n";
    let json_content = r#"{"name": "test", "version": "2.0"}"#;

    let result = diff_cross(
        toml_content,
        CrossFormatKind::Toml,
        json_content,
        CrossFormatKind::Json,
    )
    .unwrap();

    assert_eq!(result.stats.additions, 1);
}

#[test]
fn test_from_extension() {
    assert_eq!(
        CrossFormatKind::from_extension("json"),
        Some(CrossFormatKind::Json)
    );
    assert_eq!(
        CrossFormatKind::from_extension("toml"),
        Some(CrossFormatKind::Toml)
    );
    assert_eq!(
        CrossFormatKind::from_extension("yaml"),
        Some(CrossFormatKind::Yaml)
    );
    assert_eq!(
        CrossFormatKind::from_extension("yml"),
        Some(CrossFormatKind::Yaml)
    );
    assert_eq!(CrossFormatKind::from_extension("txt"), None);
}

#[test]
fn test_nested_cross_format() {
    let toml_content = r#"
[database]
host = "localhost"
port = 5432
"#;
    let yaml_content = "database:\n  host: localhost\n  port: 5433\n";

    let result = diff_cross(
        toml_content,
        CrossFormatKind::Toml,
        yaml_content,
        CrossFormatKind::Yaml,
    )
    .unwrap();

    assert_eq!(result.stats.modifications, 1);
    let modified = result
        .changes
        .iter()
        .find(|c| c.kind == ChangeKind::Modified)
        .unwrap();
    assert_eq!(modified.path.as_deref(), Some("database.port"));
}

