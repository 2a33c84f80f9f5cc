use gudf::format::{detect_format, FormatKind};

#[test]
fn test_detect_single_kv_as_text() {
    // A single "key: value" line should NOT be detected as YAML
    assert_eq!(detect_format("note: this is text"), FormatKind::Text);
}

#[test]
fn test_detect_multiple_kv_as_yaml() {
    assert_eq!(
        detect_format("key: value\nother: data\n"),
        FormatKind::Yaml
    );
}

#[test]
fn test_detect_front_matter_as_yaml() {
    assert_eq!(detect_format("---\nname: test\n"), FormatKind::Yaml);
}

#[test]
fn test_detect_json() {
    assert_eq!(detect_format(r#"{"a": 1}"#), FormatKind::Json);
}

#[test]
fn test_detect_toml() {
    assert_eq!(detect_format("[server]\nhost = \"localhost\"\n"), FormatKind::Toml);
}

#[test]
fn test_detect_plain_text() {
    assert_eq!(detect_format("hello world"), FormatKind::Text);
}

