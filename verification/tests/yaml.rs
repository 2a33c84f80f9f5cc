use gudf::format::Format;
use gudf::formats::yaml::YamlFormat;
use gudf::result::ChangeKind;

#[test]
fn test_identical_yaml() {
    let format = YamlFormat;
    let result = format.diff("name: test\n", "name: test\n").unwrap();
    assert_eq!(result.stats.modifications, 0);
}

#[test]
fn yaml_test_modified_value() {
    let format = YamlFormat;
    let result = format.diff("name: old\n", "name: new\n").unwrap();
    assert_eq!(result.stats.modifications, 1);
    let modified = result
        .changes
        .iter()
        .find(|c| c.kind == ChangeKind::Modified)
        .unwrap();
    assert_eq!(modified.path.as_deref(), Some("name"));
}

#[test]
fn test_nested_yaml() {
    let format = YamlFormat;
    let old = "user:\n  name: Alice\n  age: 30\n";
    let new = "user:\n  name: Bob\n  age: 30\n";
    let result = format.diff(old, new).unwrap();
    assert_eq!(result.stats.modifications, 1);
}

