use gudf::format::Format;
use gudf::formats::toml::TomlFormat;
use gudf::result::ChangeKind;

#[test]
fn test_identical_toml() {
    let format = TomlFormat;
    let result = format.diff("name = \"test\"\n", "name = \"test\"\n").unwrap();
    assert_eq!(result.stats.modifications, 0);
}

#[test]
fn toml_test_modified_value() {
    let format = TomlFormat;
    let result = format
        .diff("name = \"old\"\n", "name = \"new\"\n")
        .unwrap();
    assert_eq!(result.stats.modifications, 1);
    let modified = result
        .changes
        .iter()
        .find(|c| c.kind == ChangeKind::Modified)
        .unwrap();
    assert_eq!(modified.path.as_deref(), Some("name"));
}

#[test]
fn toml_test_added_key() {
    let format = TomlFormat;
    let result = format
        .diff("name = \"test\"\n", "name = \"test\"\nversion = \"1.0\"\n")
        .unwrap();
    assert_eq!(result.stats.additions, 1);
}

