use gudf::format::Format;
use gudf::formats::text::TextFormat;
use gudf::result::ChangeKind;

#[test]
fn test_identical_text() {
    let format = TextFormat;
    let result = format.diff("hello\n", "hello\n").unwrap();
    assert_eq!(result.stats.additions, 0);
    assert_eq!(result.stats.deletions, 0);
}

#[test]
fn test_added_line() {
    let format = TextFormat;
    let result = format.diff("hello\n", "hello\nworld\n").unwrap();
    assert_eq!(result.stats.additions, 1);
    assert_eq!(result.stats.deletions, 0);
}

#[test]
fn test_removed_line() {
    let format = TextFormat;
    let result = format.diff("hello\nworld\n", "hello\n").unwrap();
    assert_eq!(result.stats.additions, 0);
    assert_eq!(result.stats.deletions, 1);
}

#[test]
fn test_modified_line() {
    let format = TextFormat;
    let result = format.diff("hello\n", "world\n").unwrap();
    assert_eq!(result.stats.additions, 1);
    assert_eq!(result.stats.deletions, 1);
}

